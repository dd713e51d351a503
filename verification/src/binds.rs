//! The bind mounts that devices need.

use crate::error::CdiError;
use crate::path::{bytes_equal, HostPath};
use crate::spec_file::CdiDeviceNode;
use crate::table::ResolvedCdiDevice;
use vstd::prelude::*;

verus! {

/// A device node of the host and where it appears in the container.
#[derive(Debug)]
pub struct DeviceBind {
    pub source: HostPath,
    pub destination: HostPath,
}

#[verifier::ext_equal]
pub struct BindView {
    pub source: Seq<u8>,
    pub destination: Seq<u8>,
}

impl DeepView for DeviceBind {
    type V = BindView;

    open spec fn deep_view(&self) -> BindView {
        BindView { source: self.source@, destination: self.destination@ }
    }
}

/// The two binds join the same paths.
pub open spec fn same_bind(a: BindView, b: BindView) -> bool {
    crate::path::same_path(a.source, b.source) && crate::path::same_path(
        a.destination,
        b.destination,
    )
}

impl PartialEq for DeviceBind {
    fn eq(&self, other: &DeviceBind) -> (r: bool) {
        self.source.is_same_path(&other.source) && self.destination.is_same_path(
            &other.destination,
        )
    }
}

impl vstd::std_specs::cmp::PartialEqSpecImpl for DeviceBind {
    open spec fn obeys_eq_spec() -> bool {
        true
    }

    open spec fn eq_spec(&self, other: &DeviceBind) -> bool {
        same_bind(self.deep_view(), other.deep_view())
    }
}

/// A requested device that is defined.
#[derive(Debug)]
pub struct SelectedDevice {
    pub name: String,
    pub device: ResolvedCdiDevice,
}

#[verifier::ext_equal]
pub struct SelectedView {
    pub name: Seq<char>,
    pub device: crate::table::ResolvedView,
}

impl DeepView for SelectedDevice {
    type V = SelectedView;

    open spec fn deep_view(&self) -> SelectedView {
        SelectedView { name: self.name@, device: self.device.deep_view() }
    }
}

/// Where a node is on the host, as its specification writes it.
pub open spec fn source_text(node: crate::spec_file::NodeView) -> Seq<char> {
    match node.host_path {
        Some(host_path) => host_path,
        None => node.path,
    }
}

/// The bind mount that a node needs.
pub open spec fn node_bind(node: crate::spec_file::NodeView) -> BindView {
    BindView {
        source: crate::path::text_path(source_text(node)),
        destination: crate::path::text_path(node.path),
    }
}

/// What is wrong with a node that `device` needs, when `present` are the nodes of the host.
pub open spec fn node_problem(
    device: Seq<char>,
    spec_path: Seq<u8>,
    node: crate::spec_file::NodeView,
    present: Seq<Seq<u8>>,
) -> Option<Seq<char>> {
    if !crate::path::is_absolute_path(node_bind(node).destination) {
        Some(
            "CDI device `"@ + device + "` in "@ + crate::path::path_text(spec_path)
                + " references non-absolute device node path `"@ + node.path + "`"@,
        )
    } else if !crate::path::is_absolute_path(node_bind(node).source) {
        Some(
            "CDI device `"@ + device + "` in "@ + crate::path::path_text(spec_path)
                + " references non-absolute host device node path `"@ + source_text(node) + "`"@,
        )
    } else if !present.contains(node_bind(node).source) {
        Some(
            "CDI device `"@ + device + "` requires missing host device node "@
                + crate::path::path_text(node_bind(node).source),
        )
    } else {
        None
    }
}

/// Some bind of `binds` joins the same paths as `bind`.
pub open spec fn is_bound(binds: Seq<BindView>, bind: BindView) -> bool {
    exists|i: int| 0 <= i < binds.len() && same_bind(#[trigger] binds[i], bind)
}

/// `binds` with `bind` at its end, unless one of them joins the same paths.
pub open spec fn bound_once(binds: Seq<BindView>, bind: BindView) -> Seq<BindView> {
    if is_bound(binds, bind) {
        binds
    } else {
        binds.push(bind)
    }
}

/// The binds there are, and the problem that kept the rest from being made, if any.
pub struct Appended {
    pub binds: Seq<BindView>,
    pub problem: Option<Seq<char>>,
}

/// `before` with the binds of `nodes`, taken in order up to the first node that something is
/// wrong with.
pub open spec fn appended(
    device: Seq<char>,
    spec_path: Seq<u8>,
    nodes: Seq<crate::spec_file::NodeView>,
    present: Seq<Seq<u8>>,
    before: Seq<BindView>,
) -> Appended
    decreases nodes.len(),
{
    if nodes.len() == 0 {
        Appended { binds: before, problem: None }
    } else {
        let so_far = appended(device, spec_path, nodes.drop_last(), present, before);
        if so_far.problem is Some {
            so_far
        } else {
            match node_problem(device, spec_path, nodes.last(), present) {
                Some(problem) => Appended { binds: so_far.binds, problem: Some(problem) },
                None => Appended {
                    binds: bound_once(so_far.binds, node_bind(nodes.last())),
                    problem: None,
                },
            }
        }
    }
}

/// One of the devices is defined by the file at `spec_path`.
pub open spec fn has_device_of(selected: Seq<SelectedView>, spec_path: Seq<u8>) -> bool {
    exists|i: int|
        0 <= i < selected.len() && crate::path::same_path(
            (#[trigger] selected[i]).device.spec_path,
            spec_path,
        )
}

/// The binds of one more device: first those that every device of its specification needs,
/// unless an earlier device brought them, then its own.
pub open spec fn with_device(
    earlier: Seq<SelectedView>,
    added: SelectedView,
    present: Seq<Seq<u8>>,
    before: Seq<BindView>,
) -> Appended {
    let device = added.device;
    let shared = if has_device_of(earlier, device.spec_path) {
        Appended { binds: before, problem: None }
    } else {
        appended(added.name, device.spec_path, device.global_device_nodes, present, before)
    };
    if shared.problem is Some {
        shared
    } else {
        appended(added.name, device.spec_path, device.device_nodes, present, shared.binds)
    }
}

/// The binds that the devices need, in order, or what is wrong with the first node that something
/// is wrong with.
pub open spec fn required_binds(selected: Seq<SelectedView>, present: Seq<Seq<u8>>) -> Result<
    Seq<BindView>,
    Seq<char>,
>
    decreases selected.len(),
{
    if selected.len() == 0 {
        Ok(seq![])
    } else {
        match required_binds(selected.drop_last(), present) {
            Err(problem) => Err(problem),
            Ok(before) => {
                let after = with_device(selected.drop_last(), selected.last(), present, before);
                match after.problem {
                    Some(problem) => Err(problem),
                    None => Ok(after.binds),
                }
            },
        }
    }
}

/// Where the nodes are on the host, as far as they are said to be at absolute paths.
pub open spec fn node_sources(nodes: Seq<crate::spec_file::NodeView>) -> Seq<Seq<u8>>
    decreases nodes.len(),
{
    if nodes.len() == 0 {
        seq![]
    } else if crate::path::is_absolute_path(node_bind(nodes.last()).source) {
        node_sources(nodes.drop_last()).push(node_bind(nodes.last()).source)
    } else {
        node_sources(nodes.drop_last())
    }
}

/// The nodes of the host that the devices may need.
pub open spec fn candidates(selected: Seq<SelectedView>) -> Seq<Seq<u8>>
    decreases selected.len(),
{
    if selected.len() == 0 {
        seq![]
    } else {
        candidates(selected.drop_last()) + node_sources(
            selected.last().device.global_device_nodes,
        ) + node_sources(selected.last().device.device_nodes)
    }
}

/// Whether `path` is among `paths`, byte for byte.
fn contains_path(paths: &[HostPath], path: &HostPath) -> (r: bool)
    ensures
        r == paths.deep_view().contains(path@),
{
    let ghost all = paths.deep_view();
    let n: usize = paths.len();
    let mut i: usize = 0;
    while i < n
        invariant
            i <= n,
            n == paths@.len(),
            all == paths.deep_view(),
            forall|j: int| 0 <= j < i ==> all[j] != path@,
        decreases n - i,
    {
        if bytes_equal(paths[i].bytes.as_slice(), path.bytes.as_slice()) {
            assert(all[i as int] == path@);
            return true;
        }
        i += 1;
    }
    false
}

/// Adds a bind, unless there is one that joins the same paths.
fn bind_once(binds: &mut Vec<DeviceBind>, bind: DeviceBind)
    ensures
        final(binds).deep_view() == bound_once(old(binds).deep_view(), bind.deep_view()),
{
    let ghost before = binds.deep_view();
    let n: usize = binds.len();
    let mut i: usize = 0;
    while i < n
        invariant
            i <= n,
            n == binds@.len(),
            before == binds.deep_view(),
            before == old(binds).deep_view(),
            forall|j: int| 0 <= j < i ==> !same_bind(#[trigger] before[j], bind.deep_view()),
        decreases n - i,
    {
        if binds[i] == bind {
            assert(same_bind(before[i as int], bind.deep_view()));
            return;
        }
        i += 1;
    }
    binds.push(bind);
    assert(binds.deep_view() =~= before.push(bind.deep_view()));
}

/// Once something is wrong with a node, the nodes after it change nothing.
proof fn lemma_problem_stays(
    device: Seq<char>,
    spec_path: Seq<u8>,
    nodes: Seq<crate::spec_file::NodeView>,
    present: Seq<Seq<u8>>,
    before: Seq<BindView>,
    n: int,
)
    requires
        0 <= n <= nodes.len(),
        appended(device, spec_path, nodes.take(n), present, before).problem is Some,
    ensures
        appended(device, spec_path, nodes, present, before) == appended(
            device,
            spec_path,
            nodes.take(n),
            present,
            before,
        ),
    decreases nodes.len(),
{
    if n < nodes.len() {
        assert(nodes.drop_last().take(n) =~= nodes.take(n));
        lemma_problem_stays(device, spec_path, nodes.drop_last(), present, before, n);
    } else {
        assert(nodes.take(n) =~= nodes);
    }
}

/// `CDI device`, the device in quotes, and where it is defined.
fn described(device: &str, spec_path: &HostPath) -> (r: String)
    ensures
        r@ == "CDI device `"@ + device@ + "` in "@ + crate::path::path_text(spec_path@),
{
    let mut r = "CDI device `".to_owned();
    r.append(device);
    r.append("` in ");
    r.append(spec_path.display().as_str());
    r
}

/// The bind mount that a node needs, or what is wrong with the node.
fn checked_bind(
    requested_device: &str,
    spec_path: &HostPath,
    node: &CdiDeviceNode,
    host_nodes: &[HostPath],
) -> (r: Result<DeviceBind, CdiError>)
    ensures
        match r {
            Ok(bind) => bind.deep_view() == node_bind(node.deep_view()) && node_problem(
                requested_device@,
                spec_path@,
                node.deep_view(),
                host_nodes.deep_view(),
            ) is None,
            Err(error) => node_problem(
                requested_device@,
                spec_path@,
                node.deep_view(),
                host_nodes.deep_view(),
            ) == Some(error.deep_view()),
        },
{
    let destination = HostPath::from_text(node.path.as_str());
    if !destination.is_absolute() {
        let mut message = described(requested_device, spec_path);
        message.append(" references non-absolute device node path `");
        message.append(node.path.as_str());
        message.append("`");
        return Err(CdiError::Fatal(message));
    }
    let host_path = match &node.host_path {
        Some(host_path) => host_path.as_str(),
        None => node.path.as_str(),
    };
    let source = HostPath::from_text(host_path);
    if !source.is_absolute() {
        let mut message = described(requested_device, spec_path);
        message.append(" references non-absolute host device node path `");
        message.append(host_path);
        message.append("`");
        return Err(CdiError::Fatal(message));
    }
    if !contains_path(host_nodes, &source) {
        let mut message = "CDI device `".to_owned();
        message.append(requested_device);
        message.append("` requires missing host device node ");
        message.append(source.display().as_str());
        return Err(CdiError::Fatal(message));
    }
    Ok(DeviceBind { source, destination })
}

/// Adds the binds that the nodes need, up to the first node that something is wrong with.
/// `host_nodes` are the nodes that exist on the host. They are compared byte for byte, so that each
/// has to be written as its specification writes it.
pub fn append_device_node_binds(
    requested_device: &str,
    spec_path: &HostPath,
    device_nodes: &Vec<CdiDeviceNode>,
    host_nodes: &[HostPath],
    binds: &mut Vec<DeviceBind>,
) -> (r: Result<(), CdiError>)
    ensures
        ({
            let expected = appended(
                requested_device@,
                spec_path@,
                device_nodes.deep_view(),
                host_nodes.deep_view(),
                old(binds).deep_view(),
            );
            &&& final(binds).deep_view() == expected.binds
            &&& match r {
                Ok(()) => expected.problem is None,
                Err(error) => expected.problem == Some(error.deep_view()),
            }
        }),
{
    let ghost start = binds.deep_view();
    let ghost all = device_nodes.deep_view();
    let ghost present = host_nodes.deep_view();
    let n: usize = device_nodes.len();
    let mut i: usize = 0;
    assert(all.take(0) =~= Seq::<crate::spec_file::NodeView>::empty());
    while i < n
        invariant
            i <= n,
            n == device_nodes@.len(),
            all == device_nodes.deep_view(),
            present == host_nodes.deep_view(),
            start == old(binds).deep_view(),
            appended(requested_device@, spec_path@, all.take(i as int), present, start) == (
            Appended { binds: binds.deep_view(), problem: None }),
        decreases n - i,
    {
        proof {
            assert(all.take(i + 1).drop_last() =~= all.take(i as int));
            assert(all.take(i + 1).last() == device_nodes@[i as int].deep_view());
        }
        match checked_bind(requested_device, spec_path, &device_nodes[i], host_nodes) {
            Ok(bind) => {
                bind_once(binds, bind);
            },
            Err(error) => {
                proof {
                    lemma_problem_stays(
                        requested_device@,
                        spec_path@,
                        all,
                        present,
                        start,
                        i + 1,
                    );
                }
                return Err(error);
            },
        }
        i += 1;
    }
    assert(all.take(n as int) =~= all);
    Ok(())
}

/// Once something is wrong with a device, the devices after it change nothing.
proof fn lemma_required_problem_stays(
    selected: Seq<SelectedView>,
    present: Seq<Seq<u8>>,
    n: int,
)
    requires
        0 <= n <= selected.len(),
        required_binds(selected.take(n), present) is Err,
    ensures
        required_binds(selected, present) == required_binds(selected.take(n), present),
    decreases selected.len(),
{
    if n < selected.len() {
        assert(selected.drop_last().take(n) =~= selected.take(n));
        lemma_required_problem_stays(selected.drop_last(), present, n);
    } else {
        assert(selected.take(n) =~= selected);
    }
}

/// Whether one of the first `n` devices is defined by the file at `spec_path`.
fn has_earlier_device_of(selected: &Vec<SelectedDevice>, n: usize, spec_path: &HostPath) -> (r:
    bool)
    requires
        n <= selected@.len(),
    ensures
        r == has_device_of(selected.deep_view().take(n as int), spec_path@),
{
    let ghost all = selected.deep_view().take(n as int);
    let mut i: usize = 0;
    while i < n
        invariant
            i <= n,
            n <= selected@.len(),
            all == selected.deep_view().take(n as int),
            forall|j: int|
                0 <= j < i ==> !crate::path::same_path(
                    (#[trigger] all[j]).device.spec_path,
                    spec_path@,
                ),
        decreases n - i,
    {
        if selected[i].device.spec_path.is_same_path(spec_path) {
            assert(crate::path::same_path(all[i as int].device.spec_path, spec_path@));
            return true;
        }
        i += 1;
    }
    false
}

/// The binds that the devices need. `host_nodes` are the nodes that exist on the host. They are
/// compared byte for byte, so that each has to be written as its specification writes it, which is
/// how `host_node_candidates` gives them.
pub fn device_binds(selected: &Vec<SelectedDevice>, host_nodes: &[HostPath]) -> (r: Result<
    Vec<DeviceBind>,
    CdiError,
>)
    ensures
        crate::spec_file::outcome(r) == required_binds(
            selected.deep_view(),
            host_nodes.deep_view(),
        ),
{
    let ghost all = selected.deep_view();
    let ghost present = host_nodes.deep_view();
    let mut binds: Vec<DeviceBind> = Vec::new();
    let n: usize = selected.len();
    let mut i: usize = 0;
    assert(all.take(0) =~= Seq::<SelectedView>::empty());
    assert(binds.deep_view() =~= Seq::<BindView>::empty());
    while i < n
        invariant
            i <= n,
            n == selected@.len(),
            all == selected.deep_view(),
            present == host_nodes.deep_view(),
            required_binds(all.take(i as int), present) == Ok::<Seq<BindView>, Seq<char>>(
                binds.deep_view(),
            ),
        decreases n - i,
    {
        let item = &selected[i];
        let ghost before = binds.deep_view();
        proof {
            assert(all.take(i + 1).drop_last() =~= all.take(i as int));
            assert(all.take(i + 1).last() == item.deep_view());
        }
        if !has_earlier_device_of(selected, i, &item.device.spec_path) {
            if let Err(error) = append_device_node_binds(
                item.name.as_str(),
                &item.device.spec_path,
                &item.device.global_device_nodes,
                host_nodes,
                &mut binds,
            ) {
                proof {
                    lemma_required_problem_stays(all, present, i + 1);
                }
                return Err(error);
            }
        }
        if let Err(error) = append_device_node_binds(
            item.name.as_str(),
            &item.device.spec_path,
            &item.device.device_nodes,
            host_nodes,
            &mut binds,
        ) {
            proof {
                lemma_required_problem_stays(all, present, i + 1);
            }
            return Err(error);
        }
        i += 1;
    }
    assert(all.take(n as int) =~= all);
    Ok(binds)
}

/// Adds where the nodes are on the host, as far as they are said to be at absolute paths.
fn append_node_sources(nodes: &Vec<CdiDeviceNode>, sources: &mut Vec<HostPath>)
    ensures
        final(sources).deep_view() == old(sources).deep_view() + node_sources(nodes.deep_view()),
{
    let ghost start = sources.deep_view();
    let ghost all = nodes.deep_view();
    let n: usize = nodes.len();
    let mut i: usize = 0;
    assert(all.take(0) =~= Seq::<crate::spec_file::NodeView>::empty());
    assert(start + node_sources(all.take(0)) =~= start);
    while i < n
        invariant
            i <= n,
            n == nodes@.len(),
            all == nodes.deep_view(),
            start == old(sources).deep_view(),
            sources.deep_view() == start + node_sources(all.take(i as int)),
        decreases n - i,
    {
        let ghost before = sources.deep_view();
        proof {
            assert(all.take(i + 1).drop_last() =~= all.take(i as int));
            assert(all.take(i + 1).last() == nodes@[i as int].deep_view());
        }
        let source = match &nodes[i].host_path {
            Some(host_path) => HostPath::from_text(host_path.as_str()),
            None => HostPath::from_text(nodes[i].path.as_str()),
        };
        if source.is_absolute() {
            sources.push(source);
            assert(sources.deep_view() =~= before.push(source@));
        }
        assert(sources.deep_view() =~= start + node_sources(all.take(i + 1)));
        i += 1;
    }
    assert(all.take(n as int) =~= all);
}

/// The nodes of the host whose existence decides about the binds of the devices.
pub fn host_node_candidates(selected: &Vec<SelectedDevice>) -> (r: Vec<HostPath>)
    ensures
        r.deep_view() == candidates(selected.deep_view()),
{
    let ghost all = selected.deep_view();
    let mut r: Vec<HostPath> = Vec::new();
    let n: usize = selected.len();
    let mut i: usize = 0;
    assert(all.take(0) =~= Seq::<SelectedView>::empty());
    assert(r.deep_view() =~= Seq::<Seq<u8>>::empty());
    while i < n
        invariant
            i <= n,
            n == selected@.len(),
            all == selected.deep_view(),
            r.deep_view() == candidates(all.take(i as int)),
        decreases n - i,
    {
        proof {
            assert(all.take(i + 1).drop_last() =~= all.take(i as int));
            assert(all.take(i + 1).last() == selected@[i as int].deep_view());
        }
        append_node_sources(&selected[i].device.global_device_nodes, &mut r);
        append_node_sources(&selected[i].device.device_nodes, &mut r);
        i += 1;
    }
    assert(all.take(n as int) =~= all);
    r
}

} // verus!

//! CDI specifications and what is read from specification files.

use crate::names::{validate_device_name, validate_kind};
use crate::path::HostPath;
use vstd::prelude::*;

verus! {

/// What a result holds, taken by its views.
pub open spec fn outcome<T: DeepView, E: DeepView>(r: Result<T, E>) -> Result<T::V, E::V> {
    match r {
        Ok(value) => Ok(value.deep_view()),
        Err(error) => Err(error.deep_view()),
    }
}

/// A device node that a specification wants in the container.
#[derive(Debug)]
pub struct CdiDeviceNode {
    /// Where the node appears in the container.
    pub path: String,
    /// Where the node is on the host, if elsewhere.
    pub host_path: Option<String>,
}

#[verifier::ext_equal]
pub struct NodeView {
    pub path: Seq<char>,
    pub host_path: Option<Seq<char>>,
}

impl DeepView for CdiDeviceNode {
    type V = NodeView;

    open spec fn deep_view(&self) -> NodeView {
        NodeView { path: self.path@, host_path: self.host_path.deep_view() }
    }
}

impl Clone for CdiDeviceNode {
    fn clone(&self) -> (r: CdiDeviceNode)
        ensures
            r.deep_view() == self.deep_view(),
    {
        let host_path = match &self.host_path {
            Some(host_path) => Some(host_path.clone()),
            None => None,
        };
        CdiDeviceNode { path: self.path.clone(), host_path }
    }
}

/// Nodes with the same paths, in the same order.
pub fn clone_nodes(nodes: &Vec<CdiDeviceNode>) -> (r: Vec<CdiDeviceNode>)
    ensures
        r.deep_view() == nodes.deep_view(),
{
    let n: usize = nodes.len();
    let mut r: Vec<CdiDeviceNode> = Vec::new();
    let mut i: usize = 0;
    while i < n
        invariant
            i <= n,
            n == nodes@.len(),
            r@.len() == i,
            forall|j: int| 0 <= j < i ==> (#[trigger] r@[j]).deep_view() == nodes@[j].deep_view(),
        decreases n - i,
    {
        r.push(nodes[i].clone());
        i += 1;
    }
    assert(r.deep_view() =~= nodes.deep_view());
    r
}

/// What a specification changes in a container.
#[derive(Debug)]
pub struct CdiContainerEdits {
    pub device_nodes: Vec<CdiDeviceNode>,
}

/// A device that a specification defines.
#[derive(Debug)]
pub struct CdiDevice {
    pub name: String,
    pub container_edits: CdiContainerEdits,
}

#[verifier::ext_equal]
pub struct DeviceView {
    pub name: Seq<char>,
    pub device_nodes: Seq<NodeView>,
}

impl DeepView for CdiDevice {
    type V = DeviceView;

    open spec fn deep_view(&self) -> DeviceView {
        DeviceView {
            name: self.name@,
            device_nodes: self.container_edits.device_nodes.deep_view(),
        }
    }
}

/// A specification: devices of one kind, and the nodes that each of them needs.
#[derive(Debug)]
pub struct CdiSpec {
    pub kind: String,
    pub devices: Vec<CdiDevice>,
    pub container_edits: CdiContainerEdits,
}

#[verifier::ext_equal]
pub struct SpecView {
    pub kind: Seq<char>,
    pub devices: Seq<DeviceView>,
    pub device_nodes: Seq<NodeView>,
}

impl DeepView for CdiSpec {
    type V = SpecView;

    open spec fn deep_view(&self) -> SpecView {
        SpecView {
            kind: self.kind@,
            devices: self.devices.deep_view(),
            device_nodes: self.container_edits.device_nodes.deep_view(),
        }
    }
}

/// What reading a specification file gave.
#[derive(Debug)]
pub enum SpecFileContents {
    /// The file could not be opened, for this reason.
    OpenFailed(String),
    /// The file does not hold a specification, for this reason.
    Malformed(String),
    /// The specification that the file holds.
    Spec(CdiSpec),
}

pub enum ContentsView {
    OpenFailed(Seq<char>),
    Malformed(Seq<char>),
    Spec(SpecView),
}

impl DeepView for SpecFileContents {
    type V = ContentsView;

    open spec fn deep_view(&self) -> ContentsView {
        match self {
            SpecFileContents::OpenFailed(reason) => ContentsView::OpenFailed(reason@),
            SpecFileContents::Malformed(reason) => ContentsView::Malformed(reason@),
            SpecFileContents::Spec(spec_) => ContentsView::Spec(spec_.deep_view()),
        }
    }
}

/// A device under the name by which it is requested.
#[derive(Debug)]
pub struct ParsedCdiDevice {
    pub qualified_name: String,
    pub device_nodes: Vec<CdiDeviceNode>,
}

#[verifier::ext_equal]
pub struct ParsedDeviceView {
    pub qualified_name: Seq<char>,
    pub device_nodes: Seq<NodeView>,
}

impl DeepView for ParsedCdiDevice {
    type V = ParsedDeviceView;

    open spec fn deep_view(&self) -> ParsedDeviceView {
        ParsedDeviceView {
            qualified_name: self.qualified_name@,
            device_nodes: self.device_nodes.deep_view(),
        }
    }
}

/// A specification whose names are all well-formed, with the path of its file.
#[derive(Debug)]
pub struct ParsedCdiSpec {
    pub path: HostPath,
    pub global_device_nodes: Vec<CdiDeviceNode>,
    pub devices: Vec<ParsedCdiDevice>,
}

#[verifier::ext_equal]
pub struct ParsedSpecView {
    pub path: Seq<u8>,
    pub global_device_nodes: Seq<NodeView>,
    pub devices: Seq<ParsedDeviceView>,
}

impl DeepView for ParsedCdiSpec {
    type V = ParsedSpecView;

    open spec fn deep_view(&self) -> ParsedSpecView {
        ParsedSpecView {
            path: self.path@,
            global_device_nodes: self.global_device_nodes.deep_view(),
            devices: self.devices.deep_view(),
        }
    }
}

/// The devices under their qualified names, or what is wrong with the first device name that is
/// not well-formed.
pub open spec fn parsed_devices(kind: Seq<char>, devices: Seq<DeviceView>) -> Result<
    Seq<ParsedDeviceView>,
    Seq<char>,
>
    decreases devices.len(),
{
    if devices.len() == 0 {
        Ok(seq![])
    } else {
        match parsed_devices(kind, devices.drop_last()) {
            Err(problem) => Err(problem),
            Ok(before) => match crate::names::device_name_problem(devices.last().name) {
                Some(problem) => Err(problem),
                None => Ok(
                    before.push(
                        ParsedDeviceView {
                            qualified_name: crate::names::qualified_name(
                                kind,
                                devices.last().name,
                            ),
                            device_nodes: devices.last().device_nodes,
                        },
                    ),
                ),
            },
        }
    }
}

/// The specification that the file at `path` holds, or why it holds none.
pub open spec fn parsed_spec(path: Seq<u8>, contents: ContentsView) -> Result<
    ParsedSpecView,
    Seq<char>,
> {
    match contents {
        ContentsView::OpenFailed(reason) => Err("failed to open CDI spec file: "@ + reason),
        ContentsView::Malformed(reason) => Err("failed to parse CDI spec: "@ + reason),
        ContentsView::Spec(found) => match crate::names::kind_problem(found.kind) {
            Some(problem) => Err(problem),
            None => match parsed_devices(found.kind, found.devices) {
                Err(problem) => Err(problem),
                Ok(devices) => Ok(
                    ParsedSpecView {
                        path,
                        global_device_nodes: found.device_nodes,
                        devices,
                    },
                ),
            },
        },
    }
}

/// Once a device name is not well-formed, the devices after it change nothing.
proof fn lemma_first_problem_stays(kind: Seq<char>, devices: Seq<DeviceView>, n: int)
    requires
        0 <= n <= devices.len(),
        parsed_devices(kind, devices.take(n)) is Err,
    ensures
        parsed_devices(kind, devices) == parsed_devices(kind, devices.take(n)),
    decreases devices.len(),
{
    if n < devices.len() {
        assert(devices.drop_last().take(n) =~= devices.take(n));
        lemma_first_problem_stays(kind, devices.drop_last(), n);
    } else {
        assert(devices.take(n) =~= devices);
    }
}

/// Checks the names in what was read from the specification file at `path`.
pub fn parse_cdi_spec_file(path: &HostPath, contents: SpecFileContents) -> (r: Result<
    ParsedCdiSpec,
    String,
>)
    ensures
        outcome(r) == parsed_spec(path@, contents.deep_view()),
{
    let ghost given = contents.deep_view();
    match contents {
        SpecFileContents::OpenFailed(reason) => {
            let mut problem = "failed to open CDI spec file: ".to_owned();
            problem.append(reason.as_str());
            Err(problem)
        },
        SpecFileContents::Malformed(reason) => {
            let mut problem = "failed to parse CDI spec: ".to_owned();
            problem.append(reason.as_str());
            Err(problem)
        },
        SpecFileContents::Spec(found) => {
            let CdiSpec { kind, devices, container_edits } = found;
            if let Err(problem) = validate_kind(kind.as_str()) {
                return Err(problem);
            }
            let ghost all = devices.deep_view();
            let ghost wanted = devices@;
            let mut parsed: Vec<ParsedCdiDevice> = Vec::new();
            assert(all.take(0) =~= Seq::<DeviceView>::empty());
            assert(parsed.deep_view() =~= Seq::<ParsedDeviceView>::empty());
            for device in it: devices.into_iter()
                invariant
                    given matches ContentsView::Spec(view) && view.kind == kind@ && view.devices
                        == all,
                    given == contents.deep_view(),
                    crate::names::kind_problem(kind@) is None,
                    it.seq() == wanted,
                    all.len() == wanted.len(),
                    forall|j: int| 0 <= j < all.len() ==> #[trigger] all[j] == wanted[j].deep_view(),
                    parsed_devices(kind@, all.take(it.index())) == Ok::<
                        Seq<ParsedDeviceView>,
                        Seq<char>,
                    >(parsed.deep_view()),
            {
                let ghost before = parsed.deep_view();
                proof {
                    assert(all[it.index()] == device.deep_view());
                    assert(all.take(it.index() + 1).drop_last() =~= all.take(it.index()));
                    assert(all.take(it.index() + 1).last() == all[it.index()]);
                }
                if let Err(problem) = validate_device_name(device.name.as_str()) {
                    proof {
                        lemma_first_problem_stays(kind@, all, it.index() + 1);
                    }
                    return Err(problem);
                }
                let mut qualified_name = kind.clone();
                proof {
                    reveal_strlit("=");
                    assert("="@ =~= seq!['=']);
                }
                qualified_name.append("=");
                qualified_name.append(device.name.as_str());
                parsed.push(
                    ParsedCdiDevice {
                        qualified_name,
                        device_nodes: device.container_edits.device_nodes,
                    },
                );
                assert(parsed.deep_view() =~= before.push(parsed@.last().deep_view()));
            }
            assert(all.take(all.len() as int) =~= all);
            Ok(
                ParsedCdiSpec {
                    path: path.clone(),
                    global_device_nodes: container_edits.device_nodes,
                    devices: parsed,
                },
            )
        },
    }
}

} // verus!

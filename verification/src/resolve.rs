//! Resolution of requested devices into bind mounts.

use crate::binds::{device_binds, DeviceBind, SelectedDevice};
use crate::error::CdiError;
use crate::listing::{DirEntry, IoFailure};
use crate::names::validate_qualified_name;
use crate::path::HostPath;
use crate::scan::scan_cdi_spec_dir;
use crate::table::{DeviceTable, EffectiveCdiDevice};
use crate::text::join;
use vstd::prelude::*;

verus! {

/// A specification directory, and what listing it and reading its specification files gave.
#[derive(Debug)]
pub struct SpecDir {
    pub path: HostPath,
    pub listing: Result<Vec<DirEntry>, IoFailure>,
}

/// What is wrong with the first device name that is not well-formed.
pub open spec fn request_problem(devices: Seq<Seq<char>>) -> Option<Seq<char>>
    decreases devices.len(),
{
    if devices.len() == 0 {
        None
    } else {
        match request_problem(devices.drop_last()) {
            Some(problem) => Some(problem),
            None => crate::names::qualified_name_problem(devices.last()),
        }
    }
}

/// The requested devices, each once, in the order in which they are first named.
pub open spec fn requested(devices: Seq<Seq<char>>) -> Result<Seq<Seq<char>>, Seq<char>> {
    match request_problem(devices) {
        Some(problem) => Err(problem),
        None => Ok(devices.remove_duplicates(seq![])),
    }
}

/// The paths of the directories.
pub open spec fn dir_paths(dirs: Seq<SpecDir>) -> Seq<Seq<u8>> {
    Seq::new(dirs.len(), |i: int| dirs[i].path@)
}

/// What the directories hold.
pub open spec fn dir_scans(dirs: Seq<SpecDir>) -> Seq<crate::scan::ScanView> {
    Seq::new(dirs.len(), |i: int| crate::scan::scanned(dirs[i].path@, dirs[i].listing))
}

/// What is known of each device: what the first directory that knows it says.
pub open spec fn effective_devices(scans: Seq<crate::scan::ScanView>) -> Map<
    Seq<char>,
    crate::table::EffectiveView,
>
    decreases scans.len(),
{
    if scans.len() == 0 {
        Map::empty()
    } else {
        effective_devices(scans.drop_first()).union_prefer_right(scans[0].entries)
    }
}

/// Why specifications were ignored, those of the last directory first.
pub open spec fn ignored_specs(scans: Seq<crate::scan::ScanView>) -> Seq<Seq<char>>
    decreases scans.len(),
{
    if scans.len() == 0 {
        seq![]
    } else {
        ignored_specs(scans.drop_first()) + scans[0].scan_errors
    }
}

/// What is told of a device that no directory knows.
pub open spec fn missing_message(
    device: Seq<char>,
    paths: Seq<Seq<u8>>,
    scan_errors: Seq<Seq<char>>,
) -> Seq<char> {
    let not_found = "CDI device `"@ + device + "` was not found in "@ + crate::text::joined(
        Seq::new(paths.len(), |i: int| crate::path::path_text(paths[i])),
        ", "@,
    );
    if scan_errors.len() == 0 {
        not_found
    } else {
        not_found + "; ignored malformed CDI specs: "@ + crate::text::joined(scan_errors, "; "@)
    }
}

/// The devices with these names, or why the first that cannot be had cannot be had.
pub open spec fn selected_devices(
    names: Seq<Seq<char>>,
    known: Map<Seq<char>, crate::table::EffectiveView>,
    paths: Seq<Seq<u8>>,
    scan_errors: Seq<Seq<char>>,
) -> Result<Seq<crate::binds::SelectedView>, Seq<char>>
    decreases names.len(),
{
    if names.len() == 0 {
        Ok(seq![])
    } else {
        match selected_devices(names.drop_last(), known, paths, scan_errors) {
            Err(problem) => Err(problem),
            Ok(before) => match known.get(names.last()) {
                Some(crate::table::EffectiveView::Resolved(device)) => Ok(
                    before.push(crate::binds::SelectedView { name: names.last(), device }),
                ),
                Some(crate::table::EffectiveView::InvalidDuplicate { message }) => Err(message),
                None => Err(missing_message(names.last(), paths, scan_errors)),
            },
        }
    }
}

/// The devices that a request selects, given what the directories hold.
pub open spec fn selection(
    devices: Seq<Seq<char>>,
    paths: Seq<Seq<u8>>,
    scans: Seq<crate::scan::ScanView>,
) -> Result<Seq<crate::binds::SelectedView>, Seq<char>> {
    match requested(devices) {
        Err(problem) => Err(problem),
        Ok(names) => selected_devices(names, effective_devices(scans), paths, ignored_specs(scans)),
    }
}

/// The binds that a request resolves to, given what the directories hold and which nodes are
/// present on the host.
pub open spec fn resolution(
    devices: Seq<Seq<char>>,
    paths: Seq<Seq<u8>>,
    scans: Seq<crate::scan::ScanView>,
    present: Seq<Seq<u8>>,
) -> Result<Seq<crate::binds::BindView>, Seq<char>> {
    match selection(devices, paths, scans) {
        Err(problem) => Err(problem),
        Ok(selected) => crate::binds::required_binds(selected, present),
    }
}

/// The directories that hold specifications by default, the one that takes precedence first.
pub open spec fn default_dirs() -> Seq<Seq<u8>> {
    seq![crate::path::text_path("/var/run/cdi"@), crate::path::text_path("/etc/cdi"@)]
}

/// The directories that hold specifications by default, the one that takes precedence first.
pub fn default_cdi_spec_dirs() -> (r: Vec<HostPath>)
    ensures
        r.deep_view() == default_dirs(),
{
    let mut r: Vec<HostPath> = Vec::new();
    r.push(HostPath::from_text("/var/run/cdi"));
    r.push(HostPath::from_text("/etc/cdi"));
    assert(r.deep_view() =~= default_dirs());
    r
}

/// Once a name is not well-formed, the names after it change nothing.
proof fn lemma_request_problem_stays(devices: Seq<Seq<char>>, n: int)
    requires
        0 <= n <= devices.len(),
        request_problem(devices.take(n)) is Some,
    ensures
        request_problem(devices) == request_problem(devices.take(n)),
    decreases devices.len(),
{
    if n < devices.len() {
        assert(devices.drop_last().take(n) =~= devices.take(n));
        lemma_request_problem_stays(devices.drop_last(), n);
    } else {
        assert(devices.take(n) =~= devices);
    }
}

fn contains_name(names: &Vec<String>, name: &String) -> (r: bool)
    ensures
        r == names.deep_view().contains(name@),
{
    let ghost all = names.deep_view();
    let n: usize = names.len();
    let mut i: usize = 0;
    while i < n
        invariant
            i <= n,
            n == names@.len(),
            all == names.deep_view(),
            forall|j: int| 0 <= j < i ==> all[j] != name@,
        decreases n - i,
    {
        if names[i] == *name {
            assert(all[i as int] == name@);
            return true;
        }
        i += 1;
    }
    false
}

/// The requested devices, each once, in the order in which they are first named.
pub fn requested_devices(cdi_devices: &[String]) -> (r: Result<Vec<String>, CdiError>)
    ensures
        crate::spec_file::outcome(r) == requested(cdi_devices.deep_view()),
{
    let ghost all = cdi_devices.deep_view();
    let mut names: Vec<String> = Vec::new();
    let n: usize = cdi_devices.len();
    let mut i: usize = 0;
    assert(all.take(0) =~= Seq::<Seq<char>>::empty());
    assert(names.deep_view() =~= Seq::<Seq<char>>::empty());
    while i < n
        invariant
            i <= n,
            n == cdi_devices@.len(),
            all == cdi_devices.deep_view(),
            request_problem(all.take(i as int)) is None,
            names.deep_view() == all.take(i as int).remove_duplicates(seq![]),
        decreases n - i,
    {
        let device = &cdi_devices[i];
        let ghost before = names.deep_view();
        let ghost earlier = all.take(i as int);
        proof {
            assert(all.take(i + 1).drop_last() =~= earlier);
            assert(all.take(i + 1).last() == device@);
            assert(all.take(i + 1) =~= earlier + seq![device@]);
            assert(earlier + Seq::<Seq<char>>::empty() =~= earlier);
            earlier.lemma_remove_duplicates_append(device@, seq![]);
            earlier.lemma_remove_duplicates_properties(seq![]);
        }
        if let Err(problem) = validate_qualified_name(device.as_str()) {
            proof {
                lemma_request_problem_stays(all, i + 1);
            }
            return Err(CdiError::Fatal(problem));
        }
        if !contains_name(&names, device) {
            names.push(device.clone());
            assert(names.deep_view() =~= before + seq![device@]);
        }
        i += 1;
    }
    assert(all.take(n as int) =~= all);
    Ok(names)
}

/// What is told of a device that no directory knows.
pub fn missing_device_message(
    device: &str,
    spec_dirs_by_precedence: &[HostPath],
    scan_errors: &[String],
) -> (r: String)
    ensures
        r@ == missing_message(
            device@,
            spec_dirs_by_precedence.deep_view(),
            scan_errors.deep_view(),
        ),
{
    let ghost paths = spec_dirs_by_precedence.deep_view();
    let ghost texts = Seq::new(paths.len(), |i: int| crate::path::path_text(paths[i]));
    let mut shown: Vec<String> = Vec::new();
    let n: usize = spec_dirs_by_precedence.len();
    let mut i: usize = 0;
    while i < n
        invariant
            i <= n,
            n == spec_dirs_by_precedence@.len(),
            paths == spec_dirs_by_precedence.deep_view(),
            shown@.len() == i,
            forall|j: int|
                0 <= j < i ==> (#[trigger] shown@[j])@ == crate::path::path_text(paths[j]),
        decreases n - i,
    {
        shown.push(spec_dirs_by_precedence[i].display());
        i += 1;
    }
    assert(shown.deep_view() =~= texts);
    let mut message = "CDI device `".to_owned();
    message.append(device);
    message.append("` was not found in ");
    message.append(join(shown.as_slice(), ", ").as_str());
    if scan_errors.len() > 0 {
        message.append("; ignored malformed CDI specs: ");
        message.append(join(scan_errors, "; ").as_str());
    }
    message
}

/// Once a device cannot be had, the names after it change nothing.
proof fn lemma_selection_problem_stays(
    names: Seq<Seq<char>>,
    known: Map<Seq<char>, crate::table::EffectiveView>,
    paths: Seq<Seq<u8>>,
    scan_errors: Seq<Seq<char>>,
    n: int,
)
    requires
        0 <= n <= names.len(),
        selected_devices(names.take(n), known, paths, scan_errors) is Err,
    ensures
        selected_devices(names, known, paths, scan_errors) == selected_devices(
            names.take(n),
            known,
            paths,
            scan_errors,
        ),
    decreases names.len(),
{
    if n < names.len() {
        assert(names.drop_last().take(n) =~= names.take(n));
        lemma_selection_problem_stays(names.drop_last(), known, paths, scan_errors, n);
    } else {
        assert(names.take(n) =~= names);
    }
}

/// Looks the devices up, in order.
fn look_up(
    names: &Vec<String>,
    known: &DeviceTable,
    paths: &Vec<HostPath>,
    scan_errors: &Vec<String>,
) -> (r: Result<Vec<SelectedDevice>, CdiError>)
    requires
        known.well_formed(),
    ensures
        crate::spec_file::outcome(r) == selected_devices(
            names.deep_view(),
            known@,
            paths.deep_view(),
            scan_errors.deep_view(),
        ),
{
    let ghost all = names.deep_view();
    let mut selected: Vec<SelectedDevice> = Vec::new();
    let n: usize = names.len();
    let mut i: usize = 0;
    assert(all.take(0) =~= Seq::<Seq<char>>::empty());
    assert(selected.deep_view() =~= Seq::<crate::binds::SelectedView>::empty());
    while i < n
        invariant
            i <= n,
            n == names@.len(),
            all == names.deep_view(),
            known.well_formed(),
            selected_devices(
                all.take(i as int),
                known@,
                paths.deep_view(),
                scan_errors.deep_view(),
            ) == Ok::<Seq<crate::binds::SelectedView>, Seq<char>>(selected.deep_view()),
        decreases n - i,
    {
        let name = &names[i];
        let ghost before = selected.deep_view();
        proof {
            assert(all.take(i + 1).drop_last() =~= all.take(i as int));
            assert(all.take(i + 1).last() == name@);
        }
        match known.get(name) {
            Some(EffectiveCdiDevice::Resolved(device)) => {
                selected.push(SelectedDevice { name: name.clone(), device: device.clone() });
                assert(selected.deep_view() =~= before.push(selected@.last().deep_view()));
            },
            Some(EffectiveCdiDevice::InvalidDuplicate { message }) => {
                proof {
                    lemma_selection_problem_stays(
                        all,
                        known@,
                        paths.deep_view(),
                        scan_errors.deep_view(),
                        i + 1,
                    );
                }
                return Err(CdiError::Fatal(message.clone()));
            },
            None => {
                proof {
                    lemma_selection_problem_stays(
                        all,
                        known@,
                        paths.deep_view(),
                        scan_errors.deep_view(),
                        i + 1,
                    );
                }
                return Err(
                    CdiError::Fatal(
                        missing_device_message(
                            name.as_str(),
                            paths.as_slice(),
                            scan_errors.as_slice(),
                        ),
                    ),
                );
            },
        }
        i += 1;
    }
    assert(all.take(n as int) =~= all);
    Ok(selected)
}

/// The requested devices, as the first directory that knows each of them defines it.
pub fn select_cdi_devices(
    cdi_devices: &[String],
    spec_dirs_by_precedence: Vec<SpecDir>,
) -> (r: Result<Vec<SelectedDevice>, CdiError>)
    ensures
        crate::spec_file::outcome(r) == selection(
            cdi_devices.deep_view(),
            dir_paths(spec_dirs_by_precedence@),
            dir_scans(spec_dirs_by_precedence@),
        ),
{
    let names = match requested_devices(cdi_devices) {
        Ok(names) => names,
        Err(error) => {
            return Err(error);
        },
    };
    let ghost all = spec_dirs_by_precedence@;
    let ghost scans = dir_scans(all);
    let n: usize = spec_dirs_by_precedence.len();
    let mut paths: Vec<HostPath> = Vec::new();
    let mut i: usize = 0;
    while i < n
        invariant
            i <= n,
            n == all.len(),
            all == spec_dirs_by_precedence@,
            paths@.len() == i,
            forall|j: int| 0 <= j < i ==> (#[trigger] paths@[j])@ == all[j].path@,
        decreases n - i,
    {
        paths.push(spec_dirs_by_precedence[i].path.clone());
        i += 1;
    }
    assert(paths.deep_view() =~= dir_paths(all));
    let mut known = DeviceTable::new();
    let mut scan_errors: Vec<String> = Vec::new();
    assert(scan_errors.deep_view() =~= Seq::<Seq<char>>::empty());
    let mut rest = spec_dirs_by_precedence;
    assert(scans.skip(scans.len() as int) =~= Seq::<crate::scan::ScanView>::empty());
    assert(rest@ =~= all.take(all.len() as int));
    while rest.len() > 0
        invariant
            rest@.len() <= all.len(),
            rest@ == all.take(rest@.len() as int),
            scans == dir_scans(all),
            known.well_formed(),
            known@ == effective_devices(scans.skip(rest@.len() as int)),
            scan_errors.deep_view() == ignored_specs(scans.skip(rest@.len() as int)),
        decreases rest@.len(),
    {
        let ghost left = rest@.len();
        let ghost before = scan_errors.deep_view();
        if let Some(dir) = rest.pop() {
            proof {
                assert(dir == all[left - 1]);
                assert(rest@ =~= all.take(left - 1));
                assert(scans.skip(left - 1).drop_first() =~= scans.skip(left as int));
                assert(scans.skip(left - 1)[0] == scans[left - 1]);
            }
            let scan = scan_cdi_spec_dir(&dir.path, dir.listing);
            let mut found_errors = scan.scan_errors;
            let ghost added = found_errors.deep_view();
            scan_errors.append(&mut found_errors);
            assert(scan_errors.deep_view() =~= before + added);
            known.extend(scan.entries);
        }
    }
    assert(scans.skip(0) =~= scans);
    look_up(&names, &known, &paths, &scan_errors)
}

/// A request for nothing resolves to nothing, whatever the directories hold.
proof fn lemma_empty_request(
    devices: Seq<Seq<char>>,
    paths: Seq<Seq<u8>>,
    scans: Seq<crate::scan::ScanView>,
    present: Seq<Seq<u8>>,
)
    requires
        devices.len() == 0,
    ensures
        resolution(devices, paths, scans, present) == Ok::<
            Seq<crate::binds::BindView>,
            Seq<char>,
        >(seq![]),
{
    assert(requested(devices) == Ok::<Seq<Seq<char>>, Seq<char>>(seq![]));
    assert(selection(devices, paths, scans) == Ok::<
        Seq<crate::binds::SelectedView>,
        Seq<char>,
    >(seq![]));
}

/// The bind mounts that the requested devices need. `host_nodes` are the nodes that exist on the
/// host; those that decide about the result are the candidates of the selected devices. They are
/// compared byte for byte, so that each has to be written as its specification writes it.
pub fn resolve_cdi_device_binds(
    cdi_devices: &[String],
    spec_dirs_by_precedence: Vec<SpecDir>,
    host_nodes: &[HostPath],
) -> (r: Result<Vec<DeviceBind>, CdiError>)
    ensures
        crate::spec_file::outcome(r) == resolution(
            cdi_devices.deep_view(),
            dir_paths(spec_dirs_by_precedence@),
            dir_scans(spec_dirs_by_precedence@),
            host_nodes.deep_view(),
        ),
        cdi_devices@.len() == 0 ==> (r matches Ok(binds) && binds@.len() == 0),
{
    if cdi_devices.len() == 0 {
        let binds: Vec<DeviceBind> = Vec::new();
        proof {
            lemma_empty_request(
                cdi_devices.deep_view(),
                dir_paths(spec_dirs_by_precedence@),
                dir_scans(spec_dirs_by_precedence@),
                host_nodes.deep_view(),
            );
            assert(binds.deep_view() =~= seq![]);
        }
        return Ok(binds);
    }
    match select_cdi_devices(cdi_devices, spec_dirs_by_precedence) {
        Ok(selected) => device_binds(&selected, host_nodes),
        Err(error) => Err(error),
    }
}

} // verus!

//! What is read from specification files and directories, in terms of what the files say.

use crate::binds::{DeviceBind, SelectedDevice};
use crate::error::CdiError;
use crate::listing::{DirEntry, IoFailure, SpecFile};
use crate::scan::DirectoryScan;
use crate::spec_file::{
    CdiDevice, CdiDeviceNode, CdiSpec, ParsedCdiDevice, ParsedCdiSpec, SpecFileContents,
};
use crate::table::{EffectiveCdiDevice, ResolvedCdiDevice};
use vstd::prelude::*;

verus! {

/// The views of what specifications hold have all of it, as it stands.
pub proof fn law_views_of_specifications(
    node: CdiDeviceNode,
    device: CdiDevice,
    spec_: CdiSpec,
    parsed_device: ParsedCdiDevice,
    parsed: ParsedCdiSpec,
    reason: String,
)
    ensures
        node.deep_view().path == node.path@,
        node.host_path is Some ==> node.deep_view().host_path == Some(node.host_path->Some_0@),
        node.host_path is None ==> node.deep_view().host_path is None,
        device.deep_view().name == device.name@,
        device.deep_view().device_nodes == device.container_edits.device_nodes.deep_view(),
        spec_.deep_view().kind == spec_.kind@,
        spec_.deep_view().devices == spec_.devices.deep_view(),
        spec_.deep_view().device_nodes == spec_.container_edits.device_nodes.deep_view(),
        parsed_device.deep_view().qualified_name == parsed_device.qualified_name@,
        parsed_device.deep_view().device_nodes == parsed_device.device_nodes.deep_view(),
        parsed.deep_view().path == parsed.path.bytes@,
        parsed.deep_view().global_device_nodes == parsed.global_device_nodes.deep_view(),
        parsed.deep_view().devices == parsed.devices.deep_view(),
        SpecFileContents::Spec(spec_).deep_view() == crate::spec_file::ContentsView::Spec(
            spec_.deep_view(),
        ),
        SpecFileContents::OpenFailed(reason).deep_view()
            == crate::spec_file::ContentsView::OpenFailed(reason@),
        SpecFileContents::Malformed(reason).deep_view()
            == crate::spec_file::ContentsView::Malformed(reason@),
{
}

/// The views of what is known of devices and of what they need have all of it, as it stands.
pub proof fn law_views_of_devices(
    device: ResolvedCdiDevice,
    message: String,
    scan: DirectoryScan,
    selected: SelectedDevice,
    bind: DeviceBind,
)
    ensures
        device.deep_view().spec_path == device.spec_path.bytes@,
        device.deep_view().global_device_nodes == device.global_device_nodes.deep_view(),
        device.deep_view().device_nodes == device.device_nodes.deep_view(),
        EffectiveCdiDevice::Resolved(device).deep_view()
            == crate::table::EffectiveView::Resolved(device.deep_view()),
        (EffectiveCdiDevice::InvalidDuplicate { message }).deep_view() == (crate::table::EffectiveView::InvalidDuplicate { message: message@ }),
        scan.deep_view().entries == scan.entries@,
        scan.deep_view().scan_errors == scan.scan_errors.deep_view(),
        selected.deep_view().name == selected.name@,
        selected.deep_view().device == selected.device.deep_view(),
        bind.deep_view().source == bind.source.bytes@,
        bind.deep_view().destination == bind.destination.bytes@,
{
}

/// An outcome is a success or a failure as the result is, with the view of what the result holds.
pub proof fn law_outcomes<T: DeepView, E: DeepView>(value: T, error: E)
    ensures
        crate::spec_file::outcome::<T, E>(Ok(value)) == Ok::<T::V, E::V>(value.deep_view()),
        crate::spec_file::outcome::<T, E>(Err(error)) == Err::<T::V, E::V>(error.deep_view()),
{
}

/// An error is its message.
pub proof fn law_errors_are_their_messages(message: String)
    ensures
        CdiError::Fatal(message).deep_view() == message@,
{
}

/// As many devices are read as a specification lists, in the same order, each under the name that
/// its kind and its own name make, and with its own nodes; unless a device name is wrong, and then
/// what is wrong with the first such name is told.
pub proof fn law_every_listed_device_is_read(
    kind: Seq<char>,
    devices: Seq<crate::spec_file::DeviceView>,
    i: int,
)
    requires
        0 <= i <= devices.len(),
        forall|j: int|
            0 <= j < i ==> crate::names::device_name_problem((#[trigger] devices[j]).name) is None,
        i < devices.len() ==> crate::names::device_name_problem(devices[i].name) is Some,
    ensures
        match crate::spec_file::parsed_devices(kind, devices) {
            Ok(parsed) => {
                &&& i == devices.len()
                &&& parsed.len() == devices.len()
                &&& forall|k: int|
                    0 <= k < devices.len() ==> (#[trigger] parsed[k]).qualified_name == kind + seq![
                        '=',
                    ] + devices[k].name && parsed[k].device_nodes == devices[k].device_nodes
            },
            Err(problem) => i < devices.len() && crate::names::device_name_problem(devices[i].name)
                == Some(problem),
        },
    decreases devices.len(),
{
    if devices.len() > 0 {
        let init = devices.drop_last();
        if i < devices.len() {
            law_every_listed_device_is_read(kind, init, i);
        } else {
            law_every_listed_device_is_read(kind, init, i - 1);
            assert(crate::names::device_name_problem(devices[i - 1].name) is None);
        }
    }
}

/// A file whose specification is of a well-formed kind is read as the devices that the specification
/// lists, with the nodes that it wants for all of them; of any other file it is told why not.
pub proof fn law_what_a_file_is_read_as(
    path: Seq<u8>,
    reason: Seq<char>,
    found: crate::spec_file::SpecView,
)
    ensures
        crate::spec_file::parsed_spec(path, crate::spec_file::ContentsView::OpenFailed(reason))
            == Err::<crate::spec_file::ParsedSpecView, Seq<char>>(
            "failed to open CDI spec file: "@ + reason,
        ),
        crate::spec_file::parsed_spec(path, crate::spec_file::ContentsView::Malformed(reason))
            == Err::<crate::spec_file::ParsedSpecView, Seq<char>>(
            "failed to parse CDI spec: "@ + reason,
        ),
        match (
            crate::names::kind_problem(found.kind),
            crate::spec_file::parsed_devices(found.kind, found.devices),
            crate::spec_file::parsed_spec(path, crate::spec_file::ContentsView::Spec(found)),
        ) {
            (Some(problem), _, result) => result == Err::<
                crate::spec_file::ParsedSpecView,
                Seq<char>,
            >(problem),
            (None, Err(problem), result) => result == Err::<
                crate::spec_file::ParsedSpecView,
                Seq<char>,
            >(problem),
            (None, Ok(devices), Ok(parsed)) => {
                &&& parsed.path == path
                &&& parsed.global_device_nodes == found.device_nodes
                &&& parsed.devices == devices
            },
            (None, Ok(_), Err(_)) => false,
        },
{
}

/// The contents are a specification whose kind and device names are well-formed.
pub open spec fn is_readable(contents: crate::spec_file::ContentsView) -> bool {
    contents matches crate::spec_file::ContentsView::Spec(found) && {
        &&& crate::names::kind_problem(found.kind) is None
        &&& forall|k: int|
            0 <= k < found.devices.len() ==> crate::names::device_name_problem(
                (#[trigger] found.devices[k]).name,
            ) is None
    }
}

/// The specification in a file.
pub open spec fn specification(file: SpecFile) -> crate::spec_file::SpecView {
    file.contents.deep_view()->Spec_0
}

/// The device that a readable file lists as its `k`-th has this name, behind its kind and an equals
/// sign.
pub open spec fn lists(files: Seq<SpecFile>, i: int, k: int, name: Seq<char>) -> bool {
    &&& 0 <= i < files.len()
    &&& is_readable(files[i].contents.deep_view())
    &&& 0 <= k < specification(files[i]).devices.len()
    &&& name == specification(files[i]).kind + seq!['='] + specification(
        files[i],
    ).devices[k].name
}

proof fn lemma_readable(path: Seq<u8>, contents: crate::spec_file::ContentsView)
    ensures
        crate::spec_file::parsed_spec(path, contents) is Ok <==> is_readable(contents),
{
    if let crate::spec_file::ContentsView::Spec(found) = contents {
        let n = found.devices.len() as int;
        if is_readable(contents) {
            law_every_listed_device_is_read(found.kind, found.devices, n);
        } else if crate::names::kind_problem(found.kind) is None {
            lemma_unreadable_device(found.kind, found.devices);
        }
    }
}

proof fn lemma_unreadable_device(kind: Seq<char>, devices: Seq<crate::spec_file::DeviceView>)
    requires
        exists|k: int|
            0 <= k < devices.len() && crate::names::device_name_problem(
                (#[trigger] devices[k]).name,
            ) is Some,
    ensures
        crate::spec_file::parsed_devices(kind, devices) is Err,
    decreases devices.len(),
{
    let k = choose|k: int|
        0 <= k < devices.len() && crate::names::device_name_problem((#[trigger] devices[k]).name)
            is Some;
    let init = devices.drop_last();
    if k < init.len() {
        assert(init[k] == devices[k]);
        lemma_unreadable_device(kind, init);
    }
}

proof fn lemma_definitions_of_file(file: SpecFile)
    ensures
        !is_readable(file.contents.deep_view()) ==> crate::scan::file_definitions(file).len() == 0,
        is_readable(file.contents.deep_view()) ==> {
            let found = specification(file);
            &&& crate::scan::file_definitions(file).len() == found.devices.len()
            &&& forall|k: int|
                0 <= k < found.devices.len() ==> (#[trigger] crate::scan::file_definitions(file)[k])
                    == (crate::scan::Definition {
                    name: found.kind + seq!['='] + found.devices[k].name,
                    device: crate::table::ResolvedView {
                        spec_path: file.path.bytes@,
                        global_device_nodes: found.device_nodes,
                        device_nodes: found.devices[k].device_nodes,
                    },
                })
        },
{
    let contents = file.contents.deep_view();
    lemma_readable(file.path@, contents);
    if is_readable(contents) {
        let found = specification(file);
        law_every_listed_device_is_read(found.kind, found.devices, found.devices.len() as int);
        law_what_a_file_is_read_as(file.path@, seq![], found);
    }
}

/// Where the `k`-th definition of the `i`-th file stands among all definitions.
spec fn place_of(files: Seq<SpecFile>, i: int, k: int) -> int {
    crate::scan::definitions(files.take(i)).len() + k
}

proof fn lemma_definition_at(files: Seq<SpecFile>, i: int, k: int)
    requires
        0 <= i < files.len(),
        0 <= k < crate::scan::file_definitions(files[i]).len(),
    ensures
        0 <= place_of(files, i, k) < crate::scan::definitions(files).len(),
        place_of(files, i, k) < crate::scan::definitions(files.take(i + 1)).len(),
        crate::scan::definitions(files)[place_of(files, i, k)] == crate::scan::file_definitions(
            files[i],
        )[k],
    decreases files.len(),
{
    let init = files.drop_last();
    if i < init.len() {
        lemma_definition_at(init, i, k);
        assert(init.take(i) =~= files.take(i));
        assert(init.take(i + 1) =~= files.take(i + 1));
    } else {
        assert(files.take(i) =~= init);
        assert(files.take(i + 1) =~= files);
    }
}

proof fn lemma_file_of(files: Seq<SpecFile>, x: int) -> (origin: (int, int))
    requires
        0 <= x < crate::scan::definitions(files).len(),
    ensures
        0 <= origin.0 < files.len(),
        0 <= origin.1 < crate::scan::file_definitions(files[origin.0]).len(),
        x == place_of(files, origin.0, origin.1),
    decreases files.len(),
{
    let init = files.drop_last();
    let n = crate::scan::definitions(init).len() as int;
    if x < n {
        let origin = lemma_file_of(init, x);
        assert(init.take(origin.0) =~= files.take(origin.0));
        origin
    } else {
        assert(files.take(files.len() - 1) =~= init);
        (files.len() - 1, x - n)
    }
}

proof fn lemma_more_files_define_more(files: Seq<SpecFile>, i: int, j: int)
    requires
        0 <= i <= j <= files.len(),
    ensures
        crate::scan::definitions(files.take(i)).len() <= crate::scan::definitions(
            files.take(j),
        ).len(),
    decreases j,
{
    if i < j {
        lemma_more_files_define_more(files, i, j - 1);
        assert(files.take(j).drop_last() =~= files.take(j - 1));
    }
}

/// A directory that was read knows devices under the names that its readable files list, behind
/// their kinds, and under no others.
pub proof fn law_directories_know_what_their_files_list(
    spec_dir: Seq<u8>,
    listing: Result<Vec<DirEntry>, IoFailure>,
    name: Seq<char>,
)
    requires
        crate::listing::found_spec_files(listing) is Ok,
    ensures
        crate::scan::scanned(spec_dir, listing).entries.contains_key(name) <==> exists|
            i: int,
            k: int,
        | #[trigger]
            lists(crate::listing::found_spec_files(listing)->Ok_0, i, k, name),
{
    let files = crate::listing::found_spec_files(listing)->Ok_0;
    let defined = crate::scan::definitions(files);
    let named = |d: crate::scan::Definition| d.name == name;
    let found = crate::scan::definitions_of(defined, name);
    if crate::scan::scanned(spec_dir, listing).entries.contains_key(name) {
        assert(found.len() > 0);
        assert(found.contains(found[0]));
        defined.lemma_filter_contains_rev(named, found[0]);
        defined.lemma_filter_pred(named, 0);
        let x = choose|x: int| 0 <= x < defined.len() && defined[x] == found[0];
        let (i, k) = lemma_file_of(files, x);
        lemma_definition_at(files, i, k);
        lemma_definitions_of_file(files[i]);
        assert(crate::scan::file_definitions(files[i])[k].name == name);
        assert(lists(files, i, k, name));
    }
    if exists|i: int, k: int| #[trigger] lists(files, i, k, name) {
        let (i, k) = choose|i: int, k: int| #[trigger] lists(files, i, k, name);
        lemma_definitions_of_file(files[i]);
        assert(crate::scan::file_definitions(files[i])[k].name == name);
        lemma_definition_at(files, i, k);
        let x = place_of(files, i, k);
        assert(named(defined[x]));
        defined.lemma_filter_contains(named, x);
        assert(found.len() > 0);
    }
}

/// Where one readable file lists a name once and no other lists it, the directory knows the device
/// as that file says: with the path of the file, the nodes that its specification wants for all its
/// devices, and the nodes of the device.
pub proof fn law_names_listed_once_are_known_as_listed(
    spec_dir: Seq<u8>,
    listing: Result<Vec<DirEntry>, IoFailure>,
    name: Seq<char>,
    i: int,
    k: int,
)
    requires
        crate::listing::found_spec_files(listing) is Ok,
        lists(crate::listing::found_spec_files(listing)->Ok_0, i, k, name),
        forall|j: int, l: int| #[trigger]
            lists(crate::listing::found_spec_files(listing)->Ok_0, j, l, name) ==> j == i && l == k,
    ensures
        ({
            let file = crate::listing::found_spec_files(listing)->Ok_0[i];
            let found = file.contents.deep_view()->Spec_0;
            crate::scan::scanned(spec_dir, listing).entries.get(name) == Some(
                crate::table::EffectiveView::Resolved(
                    crate::table::ResolvedView {
                        spec_path: file.path.bytes@,
                        global_device_nodes: found.device_nodes,
                        device_nodes: found.devices[k].device_nodes,
                    },
                ),
            )
        }),
{
    let files = crate::listing::found_spec_files(listing)->Ok_0;
    let defined = crate::scan::definitions(files);
    let place = place_of(files, i, k);
    lemma_definitions_of_file(files[i]);
    assert(crate::scan::file_definitions(files[i])[k].name == name);
    lemma_definition_at(files, i, k);
    assert forall|x: int| 0 <= x < defined.len() && x != place implies (#[trigger] defined[x]).name
        != defined[place].name by {
        let (j, l) = lemma_file_of(files, x);
        lemma_definition_at(files, j, l);
        lemma_definitions_of_file(files[j]);
        assert(defined[x] == crate::scan::file_definitions(files[j])[l]);
        if defined[x].name == name {
            assert(lists(files, j, l, name));
        }
    }
    crate::laws::law_single_definition_decides(spec_dir, defined, place);
}

/// Where readable files list a name twice, be it in one file or in two, the device is invalid, and
/// the message names it and the directory.
pub proof fn law_names_listed_twice_are_invalid(
    spec_dir: Seq<u8>,
    listing: Result<Vec<DirEntry>, IoFailure>,
    name: Seq<char>,
    i: int,
    k: int,
    j: int,
    l: int,
)
    requires
        crate::listing::found_spec_files(listing) is Ok,
        lists(crate::listing::found_spec_files(listing)->Ok_0, i, k, name),
        lists(crate::listing::found_spec_files(listing)->Ok_0, j, l, name),
        i < j || (i == j && k < l),
    ensures
        crate::scan::scanned(spec_dir, listing).entries.get(name) == Some(
            crate::table::EffectiveView::InvalidDuplicate {
                message: "CDI device `"@ + name + "` is defined more than once in "@
                    + crate::path::path_text(spec_dir),
            },
        ),
{
    let files = crate::listing::found_spec_files(listing)->Ok_0;
    let defined = crate::scan::definitions(files);
    lemma_definitions_of_file(files[i]);
    lemma_definitions_of_file(files[j]);
    assert(crate::scan::file_definitions(files[i])[k].name == name);
    assert(crate::scan::file_definitions(files[j])[l].name == name);
    lemma_definition_at(files, i, k);
    lemma_definition_at(files, j, l);
    if i < j {
        lemma_more_files_define_more(files, i + 1, j);
    }
    crate::laws::law_duplicate_definitions_are_invalid(
        spec_dir,
        defined,
        place_of(files, i, k),
        place_of(files, j, l),
    );
}

/// What is told of a file: nothing where it can be read, else its path and why not.
pub open spec fn report(file: SpecFile) -> Seq<Seq<char>> {
    match crate::spec_file::parsed_spec(file.path.bytes@, file.contents.deep_view()) {
        Ok(_) => seq![],
        Err(problem) => seq![crate::path::path_text(file.path.bytes@) + ": "@ + problem],
    }
}

/// What is told of the files, one after the other.
pub open spec fn reports(files: Seq<SpecFile>) -> Seq<Seq<char>>
    decreases files.len(),
{
    if files.len() == 0 {
        seq![]
    } else {
        report(files[0]) + reports(files.drop_first())
    }
}

proof fn lemma_reports(files: Seq<SpecFile>)
    ensures
        crate::scan::file_errors(files) == reports(files),
    decreases files.len(),
{
    if files.len() > 0 {
        let first = seq![files[0]];
        assert(files =~= first + files.drop_first());
        crate::search_laws::lemma_errors_of_both(first, files.drop_first());
        lemma_reports(files.drop_first());
        assert(first.drop_last() =~= Seq::<SpecFile>::empty());
        assert(crate::scan::file_errors(first.drop_last()) =~= Seq::<Seq<char>>::empty());
        assert(first.last() == files[0]);
        assert(files[0].path@ == files[0].path.bytes@);
        assert(crate::scan::file_errors(first) =~= report(files[0]));
    }
}

/// The files of a directory that cannot be read are reported, in the order of the files, with their
/// paths and why not, and nothing else is. A file can be read where it holds a specification whose
/// kind and device names are all well-formed, and only there.
pub proof fn law_unreadable_files_are_reported(
    spec_dir: Seq<u8>,
    listing: Result<Vec<DirEntry>, IoFailure>,
    file: SpecFile,
)
    ensures
        crate::listing::found_spec_files(listing) matches Ok(files) ==> crate::scan::scanned(
            spec_dir,
            listing,
        ).scan_errors == reports(files),
        report(file).len() == 0 <==> is_readable(file.contents.deep_view()),
{
    if let Ok(files) = crate::listing::found_spec_files(listing) {
        lemma_reports(files);
    }
    lemma_readable(file.path@, file.contents.deep_view());
}

/// A directory that could not be searched knows no device. Nothing is told of it where what failed
/// is that something does not exist; else its path and the reason are.
pub proof fn law_directories_that_cannot_be_searched(
    spec_dir: Seq<u8>,
    listing: Result<Vec<DirEntry>, IoFailure>,
    name: Seq<char>,
)
    ensures
        crate::listing::found_spec_files(listing) matches Err(failure) ==> {
            &&& !crate::scan::scanned(spec_dir, listing).entries.contains_key(name)
            &&& failure.not_found ==> crate::scan::scanned(spec_dir, listing).scan_errors.len() == 0
            &&& !failure.not_found ==> crate::scan::scanned(spec_dir, listing).scan_errors == seq![
                "failed to read CDI spec directory "@ + crate::path::path_text(spec_dir) + ": "@
                    + failure.reason@,
            ]
        },
{
}

} // verus!

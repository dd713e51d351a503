//! What a specification directory says of the devices that it defines.

use crate::listing::{cdi_spec_files, DirEntry, IoFailure, SpecFile};
use crate::path::HostPath;
use crate::spec_file::{clone_nodes, parse_cdi_spec_file};
use crate::table::{DeviceTable, EffectiveCdiDevice, ResolvedCdiDevice};
use vstd::prelude::*;

verus! {

/// What a specification directory holds.
#[derive(Debug)]
pub struct DirectoryScan {
    pub entries: DeviceTable,
    /// Why specifications of the directory were ignored.
    pub scan_errors: Vec<String>,
}

#[verifier::ext_equal]
pub struct ScanView {
    pub entries: Map<Seq<char>, crate::table::EffectiveView>,
    pub scan_errors: Seq<Seq<char>>,
}

impl DeepView for DirectoryScan {
    type V = ScanView;

    open spec fn deep_view(&self) -> ScanView {
        ScanView { entries: self.entries@, scan_errors: self.scan_errors.deep_view() }
    }
}

/// A device defined by a specification file.
pub struct Definition {
    pub name: Seq<char>,
    pub device: crate::table::ResolvedView,
}

/// What a device of a specification becomes.
pub open spec fn definition(
    parsed: crate::spec_file::ParsedSpecView,
    device: crate::spec_file::ParsedDeviceView,
) -> Definition {
    Definition {
        name: device.qualified_name,
        device: crate::table::ResolvedView {
            spec_path: parsed.path,
            global_device_nodes: parsed.global_device_nodes,
            device_nodes: device.device_nodes,
        },
    }
}

/// The devices that a file defines.
pub open spec fn file_definitions(file: SpecFile) -> Seq<Definition> {
    match crate::spec_file::parsed_spec(file.path@, file.contents.deep_view()) {
        Ok(parsed) => Seq::new(
            parsed.devices.len(),
            |i: int| definition(parsed, parsed.devices[i]),
        ),
        Err(_) => seq![],
    }
}

/// The devices that the files define, in order.
pub open spec fn definitions(files: Seq<SpecFile>) -> Seq<Definition>
    decreases files.len(),
{
    if files.len() == 0 {
        seq![]
    } else {
        definitions(files.drop_last()) + file_definitions(files.last())
    }
}

/// Why files hold no specification, in order.
pub open spec fn file_errors(files: Seq<SpecFile>) -> Seq<Seq<char>>
    decreases files.len(),
{
    if files.len() == 0 {
        seq![]
    } else {
        match crate::spec_file::parsed_spec(files.last().path@, files.last().contents.deep_view()) {
            Ok(_) => file_errors(files.drop_last()),
            Err(problem) => file_errors(files.drop_last()).push(
                crate::path::path_text(files.last().path@) + ": "@ + problem,
            ),
        }
    }
}

pub open spec fn duplicate_message(spec_dir: Seq<u8>, name: Seq<char>) -> Seq<char> {
    "CDI device `"@ + name + "` is defined more than once in "@ + crate::path::path_text(spec_dir)
}

/// The definitions of the device with this name.
pub open spec fn definitions_of(defined: Seq<Definition>, name: Seq<char>) -> Seq<Definition> {
    defined.filter(|d: Definition| d.name == name)
}

/// What a directory with these definitions says of the device with this name: nothing where it
/// does not define it, the nodes it needs where it defines it once, and that it is invalid where
/// it defines it more than once.
pub open spec fn verdict(
    spec_dir: Seq<u8>,
    defined: Seq<Definition>,
    name: Seq<char>,
) -> Option<crate::table::EffectiveView> {
    let found = definitions_of(defined, name);
    if found.len() == 0 {
        None
    } else if found.len() == 1 {
        Some(crate::table::EffectiveView::Resolved(found[0].device))
    } else {
        Some(
            crate::table::EffectiveView::InvalidDuplicate {
                message: duplicate_message(spec_dir, name),
            },
        )
    }
}

/// What a directory with these definitions says of each device.
pub open spec fn verdicts(spec_dir: Seq<u8>, defined: Seq<Definition>) -> Map<
    Seq<char>,
    crate::table::EffectiveView,
> {
    Map::new(
        |name: Seq<char>| verdict(spec_dir, defined, name) is Some,
        |name: Seq<char>| verdict(spec_dir, defined, name).unwrap(),
    )
}

/// What the directory at `spec_dir` holds, when listing it gave `listing`. A directory that does
/// not exist holds nothing.
pub open spec fn scanned(
    spec_dir: Seq<u8>,
    listing: Result<Vec<DirEntry>, IoFailure>,
) -> ScanView {
    match crate::listing::found_spec_files(listing) {
        Err(failure) => ScanView {
            entries: Map::empty(),
            scan_errors: if failure.not_found {
                seq![]
            } else {
                seq![
                    "failed to read CDI spec directory "@ + crate::path::path_text(spec_dir)
                        + ": "@ + failure.reason@,
                ]
            },
        },
        Ok(files) => ScanView {
            entries: verdicts(spec_dir, definitions(files)),
            scan_errors: file_errors(files),
        },
    }
}

/// What one more definition changes.
proof fn lemma_one_more_definition(
    spec_dir: Seq<u8>,
    defined: Seq<Definition>,
    added: Definition,
)
    ensures
        verdicts(spec_dir, defined.push(added)) == match verdicts(spec_dir, defined).get(
            added.name,
        ) {
            None => verdicts(spec_dir, defined).insert(
                added.name,
                crate::table::EffectiveView::Resolved(added.device),
            ),
            Some(_) => verdicts(spec_dir, defined).insert(
                added.name,
                crate::table::EffectiveView::InvalidDuplicate {
                    message: duplicate_message(spec_dir, added.name),
                },
            ),
        },
        verdicts(spec_dir, defined).get(added.name) matches Some(
            crate::table::EffectiveView::InvalidDuplicate { message },
        ) ==> message == duplicate_message(spec_dir, added.name),
{
    broadcast use vstd::seq::Seq::lemma_filter_push;

    let before = verdicts(spec_dir, defined);
    let after = verdicts(spec_dir, defined.push(added));
    let expected = match before.get(added.name) {
        None => before.insert(added.name, crate::table::EffectiveView::Resolved(added.device)),
        Some(_) => before.insert(
            added.name,
            crate::table::EffectiveView::InvalidDuplicate {
                message: duplicate_message(spec_dir, added.name),
            },
        ),
    };
    assert forall|name: Seq<char>| true implies verdict(spec_dir, defined.push(added), name)
        == if name == added.name {
        match verdict(spec_dir, defined, name) {
            None => Some(crate::table::EffectiveView::Resolved(added.device)),
            Some(_) => Some(
                crate::table::EffectiveView::InvalidDuplicate {
                    message: duplicate_message(spec_dir, name),
                },
            ),
        }
    } else {
        verdict(spec_dir, defined, name)
    } by {
        assert(definitions_of(defined.push(added), name) == if added.name == name {
            definitions_of(defined, name).push(added)
        } else {
            definitions_of(defined, name)
        });
    }
    assert(after =~= expected);
}

/// Finds what the directory at `spec_dir` holds, from what listing it and reading its
/// specification files gave.
pub fn scan_cdi_spec_dir(
    spec_dir: &HostPath,
    listing: Result<Vec<DirEntry>, IoFailure>,
) -> (r: DirectoryScan)
    ensures
        r.deep_view() == scanned(spec_dir@, listing),
        r.entries.well_formed(),
{
    let mut entries = DeviceTable::new();
    let mut scan_errors: Vec<String> = Vec::new();
    let spec_files = match cdi_spec_files(listing) {
        Ok(spec_files) => spec_files,
        Err(failure) => {
            if !failure.not_found {
                let mut error = "failed to read CDI spec directory ".to_owned();
                error.append(spec_dir.display().as_str());
                error.append(": ");
                error.append(failure.reason.as_str());
                scan_errors.push(error);
            }
            let r = DirectoryScan { entries, scan_errors };
            assert(r.deep_view() =~= scanned(spec_dir@, listing));
            return r;
        },
    };
    let ghost all = spec_files@;
    assert(all.take(0) =~= Seq::<SpecFile>::empty());
    assert(verdicts(spec_dir@, definitions(all.take(0))) =~= Map::empty());
    assert(scan_errors.deep_view() =~= Seq::<Seq<char>>::empty());
    for file in it: spec_files.into_iter()
        invariant
            it.seq() == all,
            entries.well_formed(),
            entries@ == verdicts(spec_dir@, definitions(all.take(it.index()))),
            scan_errors.deep_view() == file_errors(all.take(it.index())),
    {
        let ghost earlier = definitions(all.take(it.index()));
        let ghost errors = scan_errors.deep_view();
        proof {
            assert(all.take(it.index() + 1).drop_last() =~= all.take(it.index()));
            assert(all.take(it.index() + 1).last() == file);
        }
        match parse_cdi_spec_file(&file.path, file.contents) {
            Ok(found) => {
                let ghost parsed = found.deep_view();
                let ghost added = file_definitions(file);
                let ghost devices = found.devices@;
                assert(earlier + added.take(0) =~= earlier);
                for device in inner: found.devices.into_iter()
                    invariant
                        inner.seq() == devices,
                        parsed.devices.len() == devices.len(),
                        parsed.path == found.path@,
                        parsed.global_device_nodes == found.global_device_nodes.deep_view(),
                        forall|j: int|
                            0 <= j < devices.len() ==> #[trigger] parsed.devices[j]
                                == devices[j].deep_view(),
                        added == Seq::new(
                            parsed.devices.len(),
                            |i: int| definition(parsed, parsed.devices[i]),
                        ),
                        entries.well_formed(),
                        entries@ == verdicts(spec_dir@, earlier + added.take(inner.index())),
                {
                    let ghost so_far = earlier + added.take(inner.index());
                    proof {
                        assert(parsed.devices[inner.index()] == device.deep_view());
                        assert(earlier + added.take(inner.index() + 1) =~= so_far.push(
                            added[inner.index()],
                        ));
                        lemma_one_more_definition(spec_dir@, so_far, added[inner.index()]);
                    }
                    match entries.get(&device.qualified_name) {
                        Some(EffectiveCdiDevice::Resolved(_)) => {
                            let mut message = "CDI device `".to_owned();
                            message.append(device.qualified_name.as_str());
                            message.append("` is defined more than once in ");
                            message.append(spec_dir.display().as_str());
                            entries.insert(
                                device.qualified_name,
                                EffectiveCdiDevice::InvalidDuplicate { message },
                            );
                        },
                        Some(EffectiveCdiDevice::InvalidDuplicate { .. }) => {
                            assert(entries@ =~= verdicts(
                                spec_dir@,
                                so_far.push(added[inner.index()]),
                            ));
                        },
                        None => {
                            entries.insert(
                                device.qualified_name,
                                EffectiveCdiDevice::Resolved(
                                    ResolvedCdiDevice {
                                        spec_path: found.path.clone(),
                                        global_device_nodes: clone_nodes(
                                            &found.global_device_nodes,
                                        ),
                                        device_nodes: device.device_nodes,
                                    },
                                ),
                            );
                        },
                    }
                }
                assert(added.take(added.len() as int) =~= added);
            },
            Err(problem) => {
                let mut error = file.path.display();
                error.append(": ");
                error.append(problem.as_str());
                scan_errors.push(error);
                assert(scan_errors.deep_view() =~= errors.push(error@));
                assert(earlier + Seq::<Definition>::empty() =~= earlier);
            },
        }
    }
    assert(all.take(all.len() as int) =~= all);
    DirectoryScan { entries, scan_errors }
}

} // verus!

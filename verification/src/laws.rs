//! What holds of the library as a whole.

use vstd::prelude::*;

verus! {

/// The directory that takes precedence decides: what is known of a device is what the first
/// directory that knows it says, and nothing where no directory knows it.
pub proof fn law_first_directory_decides(scans: Seq<crate::scan::ScanView>, name: Seq<char>, i: int)
    requires
        0 <= i <= scans.len(),
        forall|j: int| 0 <= j < i ==> !(#[trigger] scans[j]).entries.contains_key(name),
        i < scans.len() ==> scans[i].entries.contains_key(name),
    ensures
        crate::resolve::effective_devices(scans).get(name) == if i < scans.len() {
            scans[i].entries.get(name)
        } else {
            None
        },
    decreases scans.len(),
{
    if i > 0 {
        let rest = scans.drop_first();
        assert(!scans[0].entries.contains_key(name));
        assert forall|j: int| 0 <= j < i - 1 implies !(#[trigger] rest[j]).entries.contains_key(
            name,
        ) by {
            assert(rest[j] == scans[j + 1]);
        }
        law_first_directory_decides(rest, name, i - 1);
    }
}

/// A device that a directory defines in two places is invalid there.
pub proof fn law_duplicate_definitions_are_invalid(
    spec_dir: Seq<u8>,
    defined: Seq<crate::scan::Definition>,
    i: int,
    j: int,
)
    requires
        0 <= i < j < defined.len(),
        defined[i].name == defined[j].name,
    ensures
        crate::scan::verdicts(spec_dir, defined).get(defined[i].name) == Some(
            crate::table::EffectiveView::InvalidDuplicate {
                message: crate::scan::duplicate_message(spec_dir, defined[i].name),
            },
        ),
{
    let name = defined[i].name;
    let named = |d: crate::scan::Definition| d.name == name;
    let head = defined.take(j);
    let tail = defined.skip(j);
    assert(defined =~= head + tail);
    vstd::seq::Seq::filter_distributes_over_add(head, tail, named);
    head.lemma_filter_contains(named, i);
    tail.lemma_filter_contains(named, 0);
    assert(head[i] == defined[i]);
    assert(tail[0] == defined[j]);
    assert(head.filter(named).len() > 0);
    assert(tail.filter(named).len() > 0);
}

/// A device that a directory defines in one place is what that definition says.
pub proof fn law_single_definition_decides(
    spec_dir: Seq<u8>,
    defined: Seq<crate::scan::Definition>,
    i: int,
)
    requires
        0 <= i < defined.len(),
        forall|j: int|
            0 <= j < defined.len() && j != i ==> (#[trigger] defined[j]).name != defined[i].name,
    ensures
        crate::scan::verdicts(spec_dir, defined).get(defined[i].name) == Some(
            crate::table::EffectiveView::Resolved(defined[i].device),
        ),
{
    let name = defined[i].name;
    let named = |d: crate::scan::Definition| d.name == name;
    let head = defined.take(i);
    let tail = defined.skip(i + 1);
    assert(defined =~= head.push(defined[i]) + tail);
    assert(forall|k: int| 0 <= k < head.len() ==> head[k] == defined[k]);
    assert(forall|k: int| 0 <= k < tail.len() ==> tail[k] == defined[k + i + 1]);
    vstd::seq::Seq::filter_distributes_over_add(head.push(defined[i]), tail, named);
    head.lemma_filter_push(defined[i], named);
    head.lemma_all_neg_filter_empty(named);
    tail.lemma_all_neg_filter_empty(named);
    assert(defined.filter(named) =~= seq![defined[i]]);
}

/// A file that holds no specification changes nothing of what its directory says of devices, and
/// is reported once, in its place among the files that are ignored.
pub proof fn law_malformed_files_are_ignored(
    before: Seq<crate::listing::SpecFile>,
    file: crate::listing::SpecFile,
    after: Seq<crate::listing::SpecFile>,
)
    requires
        crate::spec_file::parsed_spec(file.path@, file.contents.deep_view()) is Err,
    ensures
        crate::scan::definitions(before.push(file) + after) == crate::scan::definitions(
            before + after,
        ),
        crate::scan::file_errors(before.push(file) + after) == crate::scan::file_errors(
            before,
        ).push(
            crate::path::path_text(file.path@) + ": "@ + crate::spec_file::parsed_spec(
                file.path@,
                file.contents.deep_view(),
            )->Err_0,
        ) + crate::scan::file_errors(after),
    decreases after.len(),
{
    let with = before.push(file) + after;
    let without = before + after;
    if after.len() == 0 {
        assert(with =~= before.push(file));
        assert(without =~= before);
        assert(with.drop_last() =~= before);
        assert(crate::scan::definitions(before) + Seq::<crate::scan::Definition>::empty()
            =~= crate::scan::definitions(before));
    } else {
        law_malformed_files_are_ignored(before, file, after.drop_last());
        assert(with.drop_last() =~= before.push(file) + after.drop_last());
        assert(without.drop_last() =~= before + after.drop_last());
        assert(with.last() == after.last());
        assert(without.last() == after.last());
    }
}

/// A request succeeds in selecting devices where each of them is known and valid, and selects
/// then exactly those; else the first that is not decides.
pub proof fn law_first_unavailable_device_decides(
    names: Seq<Seq<char>>,
    known: Map<Seq<char>, crate::table::EffectiveView>,
    paths: Seq<Seq<u8>>,
    scan_errors: Seq<Seq<char>>,
    n: int,
)
    requires
        0 <= n <= names.len(),
        forall|i: int|
            0 <= i < n ==> known.get(#[trigger] names[i]) matches Some(
                crate::table::EffectiveView::Resolved(_),
            ),
        n < names.len() ==> !(known.get(names[n]) matches Some(
            crate::table::EffectiveView::Resolved(_),
        )),
    ensures
        match crate::resolve::selected_devices(names, known, paths, scan_errors) {
            Ok(selected) => {
                &&& n == names.len()
                &&& selected.len() == n
                &&& forall|i: int|
                    0 <= i < n ==> (#[trigger] selected[i]).name == names[i] && known.get(names[i])
                        == Some(crate::table::EffectiveView::Resolved(selected[i].device))
            },
            Err(problem) => n < names.len() && match known.get(names[n]) {
                Some(crate::table::EffectiveView::InvalidDuplicate { message }) => problem
                    == message,
                _ => problem == crate::resolve::missing_message(names[n], paths, scan_errors),
            },
        },
    decreases names.len(),
{
    if names.len() > 0 {
        let init = names.drop_last();
        if n < names.len() {
            law_first_unavailable_device_decides(init, known, paths, scan_errors, n);
        } else {
            law_first_unavailable_device_decides(init, known, paths, scan_errors, n - 1);
            assert(known.get(names[n - 1]) matches Some(crate::table::EffectiveView::Resolved(_)));
        }
    }
}

proof fn lemma_selection_agrees(
    names: Seq<Seq<char>>,
    known: Map<Seq<char>, crate::table::EffectiveView>,
    paths: Seq<Seq<u8>>,
    scan_errors: Seq<Seq<char>>,
    other_known: Map<Seq<char>, crate::table::EffectiveView>,
    other_paths: Seq<Seq<u8>>,
    other_errors: Seq<Seq<char>>,
)
    requires
        forall|i: int|
            0 <= i < names.len() ==> known.get(#[trigger] names[i]) == other_known.get(names[i])
                && (known.contains_key(names[i]) || paths == other_paths && scan_errors
                == other_errors),
    ensures
        crate::resolve::selected_devices(names, known, paths, scan_errors)
            == crate::resolve::selected_devices(names, other_known, other_paths, other_errors),
    decreases names.len(),
{
    if names.len() > 0 {
        assert(known.get(names[names.len() - 1]) == other_known.get(names[names.len() - 1]));
        lemma_selection_agrees(
            names.drop_last(),
            known,
            paths,
            scan_errors,
            other_known,
            other_paths,
            other_errors,
        );
    }
}

/// Only what is known of the requested devices matters: neither other devices, whatever their
/// names, nor, where each requested device is known, the specifications that were ignored.
pub proof fn law_only_requested_devices_matter(
    devices: Seq<Seq<char>>,
    paths: Seq<Seq<u8>>,
    scans: Seq<crate::scan::ScanView>,
    other_paths: Seq<Seq<u8>>,
    other_scans: Seq<crate::scan::ScanView>,
    present: Seq<Seq<u8>>,
)
    requires
        forall|i: int|
            0 <= i < devices.len() ==> crate::resolve::effective_devices(scans).get(
                #[trigger] devices[i],
            ) == crate::resolve::effective_devices(other_scans).get(devices[i]),
        (forall|i: int|
            0 <= i < devices.len() ==> crate::resolve::effective_devices(scans).contains_key(
                #[trigger] devices[i],
            )) || paths == other_paths && crate::resolve::ignored_specs(scans)
            == crate::resolve::ignored_specs(other_scans),
    ensures
        crate::resolve::resolution(devices, paths, scans, present) == crate::resolve::resolution(
            devices,
            other_paths,
            other_scans,
            present,
        ),
{
    let names = devices.remove_duplicates(seq![]);
    devices.lemma_remove_duplicates_properties(seq![]);
    assert forall|i: int| 0 <= i < names.len() implies devices.contains(#[trigger] names[i]) by {
        assert(names.contains(names[i]));
    }
    lemma_selection_agrees(
        names,
        crate::resolve::effective_devices(scans),
        paths,
        crate::resolve::ignored_specs(scans),
        crate::resolve::effective_devices(other_scans),
        other_paths,
        crate::resolve::ignored_specs(other_scans),
    );
}

proof fn lemma_no_request_problem(devices: Seq<Seq<char>>, i: int)
    requires
        0 <= i < devices.len(),
        crate::resolve::request_problem(devices) is None,
    ensures
        crate::names::qualified_name_problem(devices[i]) is None,
    decreases devices.len(),
{
    if i < devices.len() - 1 {
        lemma_no_request_problem(devices.drop_last(), i);
    }
}

/// A request is accepted where each device name in it is a qualified name, and only there.
pub proof fn law_requests_hold_qualified_names(devices: Seq<Seq<char>>)
    ensures
        crate::resolve::requested(devices) is Ok <==> forall|i: int|
            0 <= i < devices.len() ==> crate::names::is_qualified_name(#[trigger] devices[i]),
    decreases devices.len(),
{
    if devices.len() > 0 {
        let init = devices.drop_last();
        law_requests_hold_qualified_names(init);
        crate::names::lemma_qualified_name(devices.last());
        if crate::resolve::requested(devices) is Ok {
            assert forall|i: int| 0 <= i < devices.len() implies crate::names::is_qualified_name(
                #[trigger] devices[i],
            ) by {
                lemma_no_request_problem(devices, i);
                crate::names::lemma_qualified_name(devices[i]);
            }
        } else if forall|i: int|
            0 <= i < devices.len() ==> crate::names::is_qualified_name(#[trigger] devices[i]) {
            assert(forall|i: int| 0 <= i < init.len() ==> #[trigger] init[i] == devices[i]);
            assert(crate::names::is_qualified_name(devices[devices.len() - 1]));
        }
    }
}

/// To request a device again changes nothing.
pub proof fn law_repeated_requests_change_nothing(
    devices: Seq<Seq<char>>,
    again: Seq<char>,
    paths: Seq<Seq<u8>>,
    scans: Seq<crate::scan::ScanView>,
    present: Seq<Seq<u8>>,
)
    requires
        devices.contains(again),
    ensures
        crate::resolve::resolution(devices.push(again), paths, scans, present)
            == crate::resolve::resolution(devices, paths, scans, present),
{
    assert(devices.push(again).drop_last() =~= devices);
    assert(devices.push(again) =~= devices + seq![again]);
    assert(devices + Seq::<Seq<char>>::empty() =~= devices);
    devices.lemma_remove_duplicates_append(again, seq![]);
    if crate::resolve::request_problem(devices) is None {
        let i = choose|i: int| 0 <= i < devices.len() && devices[i] == again;
        lemma_no_request_problem(devices, i);
    }
}

/// To request one more device keeps the binds of the others and adds to their end: a request
/// that resolves also resolves without its last device, to a beginning of its binds.
pub proof fn law_more_requests_add_binds(
    devices: Seq<Seq<char>>,
    added: Seq<char>,
    paths: Seq<Seq<u8>>,
    scans: Seq<crate::scan::ScanView>,
    present: Seq<Seq<u8>>,
)
    requires
        crate::resolve::resolution(devices.push(added), paths, scans, present) is Ok,
    ensures
        crate::resolve::resolution(devices, paths, scans, present) is Ok,
        crate::resolve::resolution(devices, paths, scans, present)->Ok_0.is_prefix_of(
            crate::resolve::resolution(devices.push(added), paths, scans, present)->Ok_0,
        ),
{
    let more = devices.push(added);
    assert(more.drop_last() =~= devices);
    assert(more =~= devices + seq![added]);
    assert(devices + Seq::<Seq<char>>::empty() =~= devices);
    devices.lemma_remove_duplicates_append(added, seq![]);
    if !devices.contains(added) {
        let names = devices.remove_duplicates(seq![]);
        assert((names + seq![added]).drop_last() =~= names);
        let selected = crate::resolve::selection(more, paths, scans)->Ok_0;
        let earlier = crate::resolve::selection(devices, paths, scans)->Ok_0;
        assert(selected.drop_last() =~= earlier);
        let before = crate::binds::required_binds(earlier, present)->Ok_0;
        lemma_device_extends(earlier, selected.last(), present, before);
    }
}

proof fn lemma_nodes_extend(
    device: Seq<char>,
    spec_path: Seq<u8>,
    nodes: Seq<crate::spec_file::NodeView>,
    present: Seq<Seq<u8>>,
    before: Seq<crate::binds::BindView>,
)
    ensures
        before.is_prefix_of(
            crate::binds::appended(device, spec_path, nodes, present, before).binds,
        ),
    decreases nodes.len(),
{
    if nodes.len() > 0 {
        lemma_nodes_extend(device, spec_path, nodes.drop_last(), present, before);
    }
}

proof fn lemma_device_extends(
    earlier: Seq<crate::binds::SelectedView>,
    added: crate::binds::SelectedView,
    present: Seq<Seq<u8>>,
    before: Seq<crate::binds::BindView>,
)
    ensures
        before.is_prefix_of(crate::binds::with_device(earlier, added, present, before).binds),
{
    let device = added.device;
    let shared = if crate::binds::has_device_of(earlier, device.spec_path) {
        before
    } else {
        crate::binds::appended(
            added.name,
            device.spec_path,
            device.global_device_nodes,
            present,
            before,
        ).binds
    };
    lemma_nodes_extend(
        added.name,
        device.spec_path,
        device.global_device_nodes,
        present,
        before,
    );
    lemma_nodes_extend(added.name, device.spec_path, device.device_nodes, present, shared);
}

/// No two binds join the same paths.
pub open spec fn binds_are_distinct(binds: Seq<crate::binds::BindView>) -> bool {
    forall|i: int, j: int|
        0 <= i < j < binds.len() ==> !crate::binds::same_bind(
            #[trigger] binds[i],
            #[trigger] binds[j],
        )
}

/// The bind joins absolute paths, and its source is a node of the host.
pub open spec fn is_usable(bind: crate::binds::BindView, present: Seq<Seq<u8>>) -> bool {
    &&& crate::path::is_absolute_path(bind.source)
    &&& crate::path::is_absolute_path(bind.destination)
    &&& present.contains(bind.source)
}

/// One of the nodes needs exactly this bind.
pub open spec fn is_needed_by(
    bind: crate::binds::BindView,
    nodes: Seq<crate::spec_file::NodeView>,
) -> bool {
    exists|k: int| 0 <= k < nodes.len() && bind == crate::binds::node_bind(#[trigger] nodes[k])
}

/// A node of one of the devices, or one that every device of its specification needs, needs
/// exactly this bind.
pub open spec fn is_needed(
    bind: crate::binds::BindView,
    selected: Seq<crate::binds::SelectedView>,
) -> bool {
    exists|i: int|
        0 <= i < selected.len() && (is_needed_by(
            bind,
            (#[trigger] selected[i]).device.global_device_nodes,
        ) || is_needed_by(bind, selected[i].device.device_nodes))
}

/// Each of the nodes has a bind.
pub open spec fn all_bound(
    binds: Seq<crate::binds::BindView>,
    nodes: Seq<crate::spec_file::NodeView>,
) -> bool {
    forall|k: int|
        0 <= k < nodes.len() ==> crate::binds::is_bound(
            binds,
            crate::binds::node_bind(#[trigger] nodes[k]),
        )
}

proof fn lemma_all_bound_extends(
    binds: Seq<crate::binds::BindView>,
    more: Seq<crate::binds::BindView>,
    nodes: Seq<crate::spec_file::NodeView>,
)
    requires
        all_bound(binds, nodes),
        binds.is_prefix_of(more),
    ensures
        all_bound(more, nodes),
{
    assert forall|k: int| 0 <= k < nodes.len() implies crate::binds::is_bound(
        more,
        crate::binds::node_bind(#[trigger] nodes[k]),
    ) by {
        let bind = crate::binds::node_bind(nodes[k]);
        assert(crate::binds::is_bound(binds, bind));
        let i = choose|i: int|
            0 <= i < binds.len() && crate::binds::same_bind(#[trigger] binds[i], bind);
        assert(more[i] == binds[i]);
    }
}

proof fn lemma_nodes_appended(
    device: Seq<char>,
    spec_path: Seq<u8>,
    nodes: Seq<crate::spec_file::NodeView>,
    present: Seq<Seq<u8>>,
    before: Seq<crate::binds::BindView>,
)
    requires
        binds_are_distinct(before),
        forall|i: int| 0 <= i < before.len() ==> is_usable(#[trigger] before[i], present),
    ensures
        ({
            let after = crate::binds::appended(device, spec_path, nodes, present, before);
            &&& binds_are_distinct(after.binds)
            &&& before.is_prefix_of(after.binds)
            &&& forall|i: int|
                0 <= i < after.binds.len() ==> is_usable(#[trigger] after.binds[i], present)
            &&& forall|i: int|
                before.len() <= i < after.binds.len() ==> is_needed_by(
                    #[trigger] after.binds[i],
                    nodes,
                )
            &&& after.problem is None ==> all_bound(after.binds, nodes)
        }),
    decreases nodes.len(),
{
    if nodes.len() > 0 {
        let init = nodes.drop_last();
        let last = nodes.last();
        lemma_nodes_appended(device, spec_path, init, present, before);
        let so_far = crate::binds::appended(device, spec_path, init, present, before);
        let after = crate::binds::appended(device, spec_path, nodes, present, before);
        assert(so_far.binds.is_prefix_of(after.binds));
        assert forall|i: int| before.len() <= i < after.binds.len() implies is_needed_by(
            #[trigger] after.binds[i],
            nodes,
        ) by {
            if i < so_far.binds.len() {
                assert(is_needed_by(so_far.binds[i], init));
                let k = choose|k: int|
                    0 <= k < init.len() && so_far.binds[i] == crate::binds::node_bind(
                        #[trigger] init[k],
                    );
                assert(nodes[k] == init[k]);
            } else {
                assert(nodes[nodes.len() - 1] == last);
            }
        }
        if after.problem is None {
            let bind = crate::binds::node_bind(last);
            lemma_all_bound_extends(so_far.binds, after.binds, init);
            assert(crate::binds::is_bound(after.binds, bind)) by {
                if !crate::binds::is_bound(so_far.binds, bind) {
                    assert(crate::binds::same_bind(after.binds[so_far.binds.len() as int], bind));
                }
            }
            assert forall|k: int| 0 <= k < nodes.len() implies crate::binds::is_bound(
                after.binds,
                crate::binds::node_bind(#[trigger] nodes[k]),
            ) by {
                if k < init.len() {
                    assert(init[k] == nodes[k]);
                }
            }
        }
    }
}

/// The binds that devices resolve to are pairwise distinct, usable, and needed by one of the
/// devices.
pub proof fn law_binds_are_distinct_usable_and_needed(
    selected: Seq<crate::binds::SelectedView>,
    present: Seq<Seq<u8>>,
)
    ensures
        crate::binds::required_binds(selected, present) matches Ok(binds) ==> {
            &&& binds_are_distinct(binds)
            &&& forall|i: int|
                0 <= i < binds.len() ==> is_usable(#[trigger] binds[i], present) && is_needed(
                    binds[i],
                    selected,
                )
        },
    decreases selected.len(),
{
    if selected.len() > 0 && crate::binds::required_binds(selected, present) is Ok {
        let init = selected.drop_last();
        let added = selected.last();
        let device = added.device;
        law_binds_are_distinct_usable_and_needed(init, present);
        let before = crate::binds::required_binds(init, present)->Ok_0;
        let binds = crate::binds::required_binds(selected, present)->Ok_0;
        lemma_nodes_appended(
            added.name,
            device.spec_path,
            device.global_device_nodes,
            present,
            before,
        );
        let shared = if crate::binds::has_device_of(init, device.spec_path) {
            before
        } else {
            crate::binds::appended(
                added.name,
                device.spec_path,
                device.global_device_nodes,
                present,
                before,
            ).binds
        };
        lemma_nodes_appended(added.name, device.spec_path, device.device_nodes, present, shared);
        assert forall|i: int| 0 <= i < binds.len() implies is_needed(
            #[trigger] binds[i],
            selected,
        ) by {
            if i < before.len() {
                assert(binds[i] == shared[i]);
                assert(shared[i] == before[i]);
                assert(is_needed(before[i], init));
                let j = choose|j: int|
                    0 <= j < init.len() && (is_needed_by(
                        before[i],
                        (#[trigger] init[j]).device.global_device_nodes,
                    ) || is_needed_by(before[i], init[j].device.device_nodes));
                assert(selected[j] == init[j]);
            } else {
                if i < shared.len() {
                    assert(binds[i] == shared[i]);
                }
                assert(selected[selected.len() - 1] == added);
            }
        }
    }
}

/// Where devices resolve, each node of each of them has a bind, and so has each node that every
/// device of a specification needs, as the first device of that specification has it.
pub proof fn law_nodes_are_bound(
    selected: Seq<crate::binds::SelectedView>,
    present: Seq<Seq<u8>>,
    i: int,
)
    requires
        0 <= i < selected.len(),
        crate::binds::required_binds(selected, present) is Ok,
    ensures
        ({
            let binds = crate::binds::required_binds(selected, present)->Ok_0;
            &&& all_bound(binds, selected[i].device.device_nodes)
            &&& !crate::binds::has_device_of(selected.take(i), selected[i].device.spec_path)
                ==> all_bound(binds, selected[i].device.global_device_nodes)
        }),
    decreases selected.len(),
{
    let init = selected.drop_last();
    let added = selected.last();
    let device = added.device;
    let before = crate::binds::required_binds(init, present)->Ok_0;
    let binds = crate::binds::required_binds(selected, present)->Ok_0;
    lemma_device_extends(init, added, present, before);
    if i < init.len() {
        law_nodes_are_bound(init, present, i);
        assert(init.take(i) =~= selected.take(i));
        lemma_all_bound_extends(before, binds, selected[i].device.device_nodes);
        if !crate::binds::has_device_of(selected.take(i), selected[i].device.spec_path) {
            lemma_all_bound_extends(before, binds, selected[i].device.global_device_nodes);
        }
    } else {
        law_binds_are_distinct_usable_and_needed(init, present);
        assert(selected.take(i) =~= init);
        lemma_nodes_appended(
            added.name,
            device.spec_path,
            device.global_device_nodes,
            present,
            before,
        );
        let shared = if crate::binds::has_device_of(init, device.spec_path) {
            before
        } else {
            crate::binds::appended(
                added.name,
                device.spec_path,
                device.global_device_nodes,
                present,
                before,
            ).binds
        };
        lemma_nodes_appended(added.name, device.spec_path, device.device_nodes, present, shared);
        if !crate::binds::has_device_of(init, device.spec_path) {
            lemma_all_bound_extends(shared, binds, device.global_device_nodes);
        }
    }
}

proof fn lemma_node_source_is_candidate(nodes: Seq<crate::spec_file::NodeView>, k: int)
    requires
        0 <= k < nodes.len(),
        crate::path::is_absolute_path(crate::binds::node_bind(nodes[k]).source),
    ensures
        crate::binds::node_sources(nodes).contains(crate::binds::node_bind(nodes[k]).source),
    decreases nodes.len(),
{
    let source = crate::binds::node_bind(nodes[k]).source;
    let all = crate::binds::node_sources(nodes);
    if k < nodes.len() - 1 {
        let init = crate::binds::node_sources(nodes.drop_last());
        lemma_node_source_is_candidate(nodes.drop_last(), k);
        let i = choose|i: int| 0 <= i < init.len() && init[i] == source;
        assert(all[i] == source);
    } else {
        assert(all[all.len() - 1] == source);
    }
}

proof fn lemma_appended_agrees(
    device: Seq<char>,
    spec_path: Seq<u8>,
    nodes: Seq<crate::spec_file::NodeView>,
    present: Seq<Seq<u8>>,
    other: Seq<Seq<u8>>,
    before: Seq<crate::binds::BindView>,
)
    requires
        forall|source: Seq<u8>|
            #[trigger] crate::binds::node_sources(nodes).contains(source) ==> present.contains(
                source,
            ) == other.contains(source),
    ensures
        crate::binds::appended(device, spec_path, nodes, present, before)
            == crate::binds::appended(device, spec_path, nodes, other, before),
    decreases nodes.len(),
{
    if nodes.len() > 0 {
        let init = nodes.drop_last();
        let few = crate::binds::node_sources(init);
        let all = crate::binds::node_sources(nodes);
        assert forall|source: Seq<u8>| #[trigger] few.contains(source) implies present.contains(
            source,
        ) == other.contains(source) by {
            let i = choose|i: int| 0 <= i < few.len() && few[i] == source;
            assert(all[i] == source);
            assert(all.contains(source));
        }
        lemma_appended_agrees(device, spec_path, init, present, other, before);
        if crate::path::is_absolute_path(crate::binds::node_bind(nodes.last()).source) {
            lemma_node_source_is_candidate(nodes, nodes.len() - 1);
        }
    }
}

/// Of the nodes of the host, only the candidates of the devices matter.
pub proof fn law_only_candidates_matter(
    selected: Seq<crate::binds::SelectedView>,
    present: Seq<Seq<u8>>,
    other: Seq<Seq<u8>>,
)
    requires
        forall|source: Seq<u8>|
            #[trigger] crate::binds::candidates(selected).contains(source) ==> present.contains(
                source,
            ) == other.contains(source),
    ensures
        crate::binds::required_binds(selected, present) == crate::binds::required_binds(
            selected,
            other,
        ),
    decreases selected.len(),
{
    if selected.len() > 0 {
        let init = selected.drop_last();
        let added = selected.last();
        let device = added.device;
        let all = crate::binds::candidates(selected);
        let few = crate::binds::candidates(init);
        let shared = crate::binds::node_sources(device.global_device_nodes);
        let own = crate::binds::node_sources(device.device_nodes);
        assert(all == few + shared + own);
        assert forall|source: Seq<u8>| few.contains(source) || shared.contains(source)
            || own.contains(source) implies present.contains(source) == other.contains(source) by {
            if few.contains(source) {
                let i = choose|i: int| 0 <= i < few.len() && few[i] == source;
                assert(all[i] == source);
            } else if shared.contains(source) {
                let i = choose|i: int| 0 <= i < shared.len() && shared[i] == source;
                assert(all[few.len() + i] == source);
            } else {
                let i = choose|i: int| 0 <= i < own.len() && own[i] == source;
                assert(all[few.len() + shared.len() + i] == source);
            }
            assert(all.contains(source));
        }
        law_only_candidates_matter(init, present, other);
        if crate::binds::required_binds(init, present) is Ok {
            let before = crate::binds::required_binds(init, present)->Ok_0;
            lemma_appended_agrees(
                added.name,
                device.spec_path,
                device.global_device_nodes,
                present,
                other,
                before,
            );
            let bound = if crate::binds::has_device_of(init, device.spec_path) {
                before
            } else {
                crate::binds::appended(
                    added.name,
                    device.spec_path,
                    device.global_device_nodes,
                    present,
                    before,
                ).binds
            };
            lemma_appended_agrees(
                added.name,
                device.spec_path,
                device.device_nodes,
                present,
                other,
                bound,
            );
        }
    }
}

proof fn lemma_first_of_file(
    selected: Seq<crate::binds::SelectedView>,
    i: int,
) -> (first: int)
    requires
        0 <= i < selected.len(),
    ensures
        0 <= first <= i,
        crate::path::same_path(
            selected[first].device.spec_path,
            selected[i].device.spec_path,
        ),
        !crate::binds::has_device_of(selected.take(first), selected[first].device.spec_path),
    decreases i,
{
    let earlier = selected.take(i);
    let spec_path = selected[i].device.spec_path;
    if crate::binds::has_device_of(earlier, spec_path) {
        let j = choose|j: int|
            0 <= j < earlier.len() && crate::path::same_path(
                (#[trigger] earlier[j]).device.spec_path,
                spec_path,
            );
        assert(earlier[j] == selected[j]);
        lemma_first_of_file(selected, j)
    } else {
        i
    }
}

/// Where devices resolve and devices of one file agree on the nodes that all of them need, each
/// of those nodes has a bind too, though they are gone through once for each file only.
pub proof fn law_global_nodes_are_bound(
    selected: Seq<crate::binds::SelectedView>,
    present: Seq<Seq<u8>>,
    i: int,
)
    requires
        0 <= i < selected.len(),
        crate::binds::required_binds(selected, present) is Ok,
        forall|j: int, k: int|
            0 <= j < selected.len() && 0 <= k < selected.len() && crate::path::same_path(
                (#[trigger] selected[j]).device.spec_path,
                (#[trigger] selected[k]).device.spec_path,
            ) ==> selected[j].device.global_device_nodes == selected[k].device.global_device_nodes,
    ensures
        all_bound(
            crate::binds::required_binds(selected, present)->Ok_0,
            selected[i].device.global_device_nodes,
        ),
{
    let first = lemma_first_of_file(selected, i);
    law_nodes_are_bound(selected, present, first);
}

/// Where a definition comes from.
pub proof fn lemma_definition_origin(files: Seq<crate::listing::SpecFile>, i: int) -> (origin: int)
    requires
        0 <= i < crate::scan::definitions(files).len(),
    ensures
        0 <= origin < files.len(),
        crate::spec_file::parsed_spec(
            files[origin].path@,
            files[origin].contents.deep_view(),
        ) matches Ok(parsed) && {
            &&& crate::scan::definitions(files)[i].device.spec_path == files[origin].path@
            &&& crate::scan::definitions(files)[i].device.global_device_nodes
                == parsed.global_device_nodes
        },
    decreases files.len(),
{
    let init = files.drop_last();
    if i < crate::scan::definitions(init).len() {
        lemma_definition_origin(init, i)
    } else {
        files.len() - 1
    }
}

/// Devices of one file agree on the nodes that all of them need, where no file is read twice.
pub proof fn law_devices_of_a_file_share_global_nodes(
    files: Seq<crate::listing::SpecFile>,
    i: int,
    j: int,
)
    requires
        0 <= i < crate::scan::definitions(files).len(),
        0 <= j < crate::scan::definitions(files).len(),
        forall|k: int, l: int|
            0 <= k < l < files.len() ==> !crate::path::same_path(
                (#[trigger] files[k]).path@,
                (#[trigger] files[l]).path@,
            ),
        crate::path::same_path(
            crate::scan::definitions(files)[i].device.spec_path,
            crate::scan::definitions(files)[j].device.spec_path,
        ),
    ensures
        crate::scan::definitions(files)[i].device.global_device_nodes
            == crate::scan::definitions(files)[j].device.global_device_nodes,
{
    let k = lemma_definition_origin(files, i);
    let l = lemma_definition_origin(files, j);
    if k < l {
        assert(!crate::path::same_path(files[k].path@, files[l].path@));
    } else if l < k {
        assert(!crate::path::same_path(files[l].path@, files[k].path@));
    }
}

/// Every device that a specification file defines can be requested.
pub proof fn law_parsed_devices_can_be_requested(
    path: Seq<u8>,
    contents: crate::spec_file::ContentsView,
    i: int,
)
    ensures
        crate::spec_file::parsed_spec(path, contents) matches Ok(parsed) ==> (0 <= i
            < parsed.devices.len() ==> crate::names::is_qualified_name(
            parsed.devices[i].qualified_name,
        )),
{
    if let crate::spec_file::ContentsView::Spec(found) = contents {
        if crate::names::kind_problem(found.kind) is None {
            lemma_parsed_names(found.kind, found.devices, i);
        }
    }
}

proof fn lemma_parsed_names(
    kind: Seq<char>,
    devices: Seq<crate::spec_file::DeviceView>,
    i: int,
)
    requires
        crate::names::kind_problem(kind) is None,
    ensures
        crate::spec_file::parsed_devices(kind, devices) matches Ok(parsed) ==> (0 <= i
            < parsed.len() ==> crate::names::is_qualified_name(parsed[i].qualified_name)),
    decreases devices.len(),
{
    if devices.len() > 0 {
        lemma_parsed_names(kind, devices.drop_last(), i);
        let name = devices.last().name;
        if crate::names::device_name_problem(name) is None {
            crate::names::law_defined_devices_can_be_requested(kind, name);
            crate::names::lemma_qualified_name(crate::names::qualified_name(kind, name));
        }
    }
}

/// A path that a text writes down is shown as that text.
pub proof fn law_written_paths_are_shown_as_written(text: Seq<char>)
    ensures
        crate::path::path_text(crate::path::text_path(text)) == text,
{
    vstd::utf8::encode_utf8_valid_utf8(text);
    vstd::utf8::encode_utf8_decode_utf8(text);
}

/// A path that a text writes down is absolute where the text begins with a slash, and only there.
pub proof fn law_written_paths_are_absolute_behind_a_slash(text: Seq<char>)
    ensures
        crate::path::is_absolute_path(crate::path::text_path(text)) <==> text.len() > 0
            && text[0] == '/',
{
    if text.len() > 0 {
        let first: char = text[0];
        let scalar = first as u32;
        vstd::utf8::char_is_scalar(first);
        vstd::utf8::char_u32_cast(first, scalar);
        assert(crate::path::text_path(text)[0] == vstd::utf8::encode_scalar(scalar)[0]);
        assert(scalar <= 0x7F ==> (((scalar & 0x7F) as u8) == 47u8) == (scalar == 47))
            by (bit_vector);
        assert((0xC0u8 | ((scalar >> 6) & 0x1F) as u8) != 47u8) by (bit_vector);
        assert((0xE0u8 | ((scalar >> 12) & 0x0F) as u8) != 47u8) by (bit_vector);
        assert((0xF0u8 | ((scalar >> 18) & 0x7) as u8) != 47u8) by (bit_vector);
        assert(scalar == 47 <==> first == '/');
        assert(crate::path::text_path(text)[0] == 47u8 <==> scalar == 47);
    }
}

/// A request for one device resolves to the binds of that device alone; it fails where the device
/// is not known or is defined more than once.
pub proof fn law_single_request(
    device: Seq<char>,
    paths: Seq<Seq<u8>>,
    scans: Seq<crate::scan::ScanView>,
    present: Seq<Seq<u8>>,
)
    requires
        crate::names::is_qualified_name(device),
    ensures
        crate::resolve::resolution(seq![device], paths, scans, present)
            == match crate::resolve::effective_devices(scans).get(device) {
            Some(crate::table::EffectiveView::Resolved(resolved)) => crate::binds::required_binds(
                seq![crate::binds::SelectedView { name: device, device: resolved }],
                present,
            ),
            Some(crate::table::EffectiveView::InvalidDuplicate { message }) => Err(message),
            None => Err(
                crate::resolve::missing_message(
                    device,
                    paths,
                    crate::resolve::ignored_specs(scans),
                ),
            ),
        },
{
    let none: Seq<Seq<char>> = seq![];
    let one = seq![device];
    let known = crate::resolve::effective_devices(scans);
    let errors = crate::resolve::ignored_specs(scans);
    crate::names::lemma_qualified_name(device);
    assert(one.drop_last() =~= none);
    assert(none + seq![device] =~= one);
    none.lemma_remove_duplicates_append(device, none);
    assert(one.remove_duplicates(none) =~= one);
    assert(crate::resolve::request_problem(none) is None);
    assert(crate::resolve::request_problem(one) is None);
    assert(crate::resolve::selected_devices(none, known, paths, errors) == Ok::<
        Seq<crate::binds::SelectedView>,
        Seq<char>,
    >(seq![]));
    if let Some(crate::table::EffectiveView::Resolved(resolved)) = known.get(device) {
        let item = crate::binds::SelectedView { name: device, device: resolved };
        assert(Seq::<crate::binds::SelectedView>::empty().push(item) =~= seq![item]);
    }
}

/// What a request resolves to are pairwise distinct binds of absolute paths whose sources are
/// nodes of the host.
pub proof fn law_resolved_binds_are_distinct_and_usable(
    devices: Seq<Seq<char>>,
    paths: Seq<Seq<u8>>,
    scans: Seq<crate::scan::ScanView>,
    present: Seq<Seq<u8>>,
)
    ensures
        crate::resolve::resolution(devices, paths, scans, present) matches Ok(binds) ==> {
            &&& binds_are_distinct(binds)
            &&& forall|i: int| 0 <= i < binds.len() ==> is_usable(#[trigger] binds[i], present)
        },
{
    if let Ok(selected) = crate::resolve::selection(devices, paths, scans) {
        law_binds_are_distinct_usable_and_needed(selected, present);
    }
}

proof fn lemma_filter_multiset<A>(s: Seq<A>, kept: spec_fn(A) -> bool)
    ensures
        s.filter(kept).to_multiset() == s.to_multiset().filter(kept),
    decreases s.len(),
{
    broadcast use {
        vstd::seq_lib::to_multiset_build,
        vstd::seq::Seq::lemma_filter_push,
        vstd::multiset::group_multiset_axioms,
    };

    if s.len() > 0 {
        let init = s.drop_last();
        lemma_filter_multiset(init, kept);
        assert(s =~= init.push(s.last()));
        assert(s.filter(kept).to_multiset() =~= s.to_multiset().filter(kept));
    } else {
        reveal(vstd::seq::Seq::filter);
        assert(s =~= Seq::<A>::empty());
        s.to_multiset_ensures();
        assert(s.filter(kept).to_multiset() =~= s.to_multiset().filter(kept));
    }
}

/// What a directory says of devices does not depend on the order of its definitions.
pub proof fn law_order_of_definitions_does_not_matter(
    spec_dir: Seq<u8>,
    defined: Seq<crate::scan::Definition>,
    reordered: Seq<crate::scan::Definition>,
)
    requires
        defined.to_multiset() == reordered.to_multiset(),
    ensures
        crate::scan::verdicts(spec_dir, defined) == crate::scan::verdicts(spec_dir, reordered),
{
    assert forall|name: Seq<char>| true implies #[trigger] crate::scan::verdict(
        spec_dir,
        defined,
        name,
    ) == crate::scan::verdict(spec_dir, reordered, name) by {
        let named = |d: crate::scan::Definition| d.name == name;
        let a = defined.filter(named);
        let b = reordered.filter(named);
        lemma_filter_multiset(defined, named);
        lemma_filter_multiset(reordered, named);
        a.to_multiset_ensures();
        b.to_multiset_ensures();
        assert(a.len() == b.len());
        if a.len() == 1 {
            assert(a.contains(a[0]));
            assert(b.to_multiset().count(a[0]) > 0);
            assert(b.contains(a[0]));
        }
    }
    assert(crate::scan::verdicts(spec_dir, defined) =~= crate::scan::verdicts(
        spec_dir,
        reordered,
    ));
}

} // verus!

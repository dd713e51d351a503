//! When a request resolves, and to which binds.

use crate::resolve::SpecDir;
use vstd::prelude::*;

verus! {

/// The nodes that a device needs: those that every device of its specification needs, and then
/// its own.
pub open spec fn nodes_of(device: crate::table::ResolvedView) -> Seq<crate::spec_file::NodeView> {
    device.global_device_nodes + device.device_nodes
}

/// The nodes that the device with this name needs, where it is known and valid.
pub open spec fn known_nodes(
    known: Map<Seq<char>, crate::table::EffectiveView>,
    name: Seq<char>,
) -> Seq<crate::spec_file::NodeView> {
    match known.get(name) {
        Some(crate::table::EffectiveView::Resolved(device)) => nodes_of(device),
        _ => seq![],
    }
}

/// The nodes that the devices with these names need, one device after the other.
pub open spec fn requested_nodes(
    known: Map<Seq<char>, crate::table::EffectiveView>,
    names: Seq<Seq<char>>,
) -> Seq<crate::spec_file::NodeView>
    decreases names.len(),
{
    if names.len() == 0 {
        seq![]
    } else {
        requested_nodes(known, names.drop_last()) + known_nodes(known, names.last())
    }
}

/// The binds that the nodes need, one for each node.
pub open spec fn node_binds(nodes: Seq<crate::spec_file::NodeView>) -> Seq<crate::binds::BindView> {
    Seq::new(nodes.len(), |i: int| crate::binds::node_bind(nodes[i]))
}

/// The binds that join paths which no bind before them joins, in order.
pub open spec fn first_occurrences(binds: Seq<crate::binds::BindView>) -> Seq<
    crate::binds::BindView,
>
    decreases binds.len(),
{
    if binds.len() == 0 {
        seq![]
    } else if crate::binds::is_bound(binds.drop_last(), binds.last()) {
        first_occurrences(binds.drop_last())
    } else {
        first_occurrences(binds.drop_last()).push(binds.last())
    }
}

/// Each of the nodes is at absolute paths and present on the host.
pub open spec fn all_usable(
    nodes: Seq<crate::spec_file::NodeView>,
    present: Seq<Seq<u8>>,
) -> bool {
    forall|i: int|
        0 <= i < nodes.len() ==> crate::laws::is_usable(
            crate::binds::node_bind(#[trigger] nodes[i]),
            present,
        )
}

/// The device has a qualified name, is known and defined once where it is known, and each node that
/// it needs, shared or its own, is at absolute paths and present on the host.
pub open spec fn can_be_had(
    known: Map<Seq<char>, crate::table::EffectiveView>,
    device: Seq<char>,
    present: Seq<Seq<u8>>,
) -> bool {
    &&& crate::names::is_qualified_name(device)
    &&& match known.get(device) {
        Some(crate::table::EffectiveView::Resolved(resolved)) => all_usable(
            resolved.global_device_nodes,
            present,
        ) && all_usable(resolved.device_nodes, present),
        Some(crate::table::EffectiveView::InvalidDuplicate { .. }) => false,
        None => false,
    }
}

/// Where both devices are known, valid and defined by one file, they agree on the nodes that every
/// device of that file needs.
pub open spec fn agree_on_shared_nodes(
    known: Map<Seq<char>, crate::table::EffectiveView>,
    a: Seq<char>,
    b: Seq<char>,
) -> bool {
    match (known.get(a), known.get(b)) {
        (
            Some(crate::table::EffectiveView::Resolved(x)),
            Some(crate::table::EffectiveView::Resolved(y)),
        ) => crate::path::same_path(x.spec_path, y.spec_path) ==> x.global_device_nodes
            == y.global_device_nodes,
        _ => true,
    }
}

/// Any two of the devices that one file defines agree on the nodes that every device of that file
/// needs.
pub open spec fn all_agree_on_shared_nodes(
    known: Map<Seq<char>, crate::table::EffectiveView>,
    names: Seq<Seq<char>>,
) -> bool {
    forall|i: int, j: int|
        0 <= i < names.len() && 0 <= j < names.len() ==> agree_on_shared_nodes(
            known,
            #[trigger] names[i],
            #[trigger] names[j],
        )
}

proof fn lemma_first_occurrences_bind_the_same(
    binds: Seq<crate::binds::BindView>,
    bind: crate::binds::BindView,
)
    ensures
        crate::binds::is_bound(first_occurrences(binds), bind) <==> crate::binds::is_bound(
            binds,
            bind,
        ),
    decreases binds.len(),
{
    if binds.len() > 0 {
        let init = binds.drop_last();
        let last = binds.last();
        let firsts = first_occurrences(binds);
        let before = first_occurrences(init);
        lemma_first_occurrences_bind_the_same(init, bind);
        if crate::binds::is_bound(binds, bind) {
            let i = choose|i: int|
                0 <= i < binds.len() && crate::binds::same_bind(#[trigger] binds[i], bind);
            if i < init.len() {
                assert(crate::binds::same_bind(init[i], bind));
                let k = choose|k: int|
                    0 <= k < before.len() && crate::binds::same_bind(#[trigger] before[k], bind);
                assert(firsts[k] == before[k]);
            } else if crate::binds::is_bound(init, last) {
                let k = choose|k: int|
                    0 <= k < init.len() && crate::binds::same_bind(#[trigger] init[k], last);
                assert(crate::binds::same_bind(init[k], bind));
            } else {
                assert(firsts[before.len() as int] == last);
            }
        }
        if crate::binds::is_bound(firsts, bind) {
            let k = choose|k: int|
                0 <= k < firsts.len() && crate::binds::same_bind(#[trigger] firsts[k], bind);
            if k < before.len() {
                assert(crate::binds::same_bind(before[k], bind));
                let i = choose|i: int|
                    0 <= i < init.len() && crate::binds::same_bind(#[trigger] init[i], bind);
                assert(binds[i] == init[i]);
            } else {
                assert(crate::binds::same_bind(binds[binds.len() - 1], bind));
            }
        }
    }
}

/// What follows counts the same behind binds with the same first occurrences.
proof fn lemma_first_occurrences_behind(
    a: Seq<crate::binds::BindView>,
    b: Seq<crate::binds::BindView>,
    rest: Seq<crate::binds::BindView>,
)
    requires
        first_occurrences(a) == first_occurrences(b),
    ensures
        first_occurrences(a + rest) == first_occurrences(b + rest),
    decreases rest.len(),
{
    if rest.len() == 0 {
        assert(a + rest =~= a);
        assert(b + rest =~= b);
    } else {
        lemma_first_occurrences_behind(a, b, rest.drop_last());
        assert((a + rest).drop_last() =~= a + rest.drop_last());
        assert((b + rest).drop_last() =~= b + rest.drop_last());
        lemma_first_occurrences_bind_the_same(a + rest.drop_last(), rest.last());
        lemma_first_occurrences_bind_the_same(b + rest.drop_last(), rest.last());
    }
}

/// What is bound already adds nothing.
proof fn lemma_bound_adds_nothing(
    binds: Seq<crate::binds::BindView>,
    rest: Seq<crate::binds::BindView>,
)
    requires
        forall|i: int| 0 <= i < rest.len() ==> crate::binds::is_bound(binds, #[trigger] rest[i]),
    ensures
        first_occurrences(binds + rest) == first_occurrences(binds),
    decreases rest.len(),
{
    if rest.len() == 0 {
        assert(binds + rest =~= binds);
    } else {
        let init = rest.drop_last();
        let last = rest.last();
        assert forall|i: int| 0 <= i < init.len() implies crate::binds::is_bound(
            binds,
            #[trigger] init[i],
        ) by {
            assert(init[i] == rest[i]);
        }
        lemma_bound_adds_nothing(binds, init);
        assert((binds + rest).drop_last() =~= binds + init);
        assert(crate::binds::is_bound(binds, rest[rest.len() - 1]));
        let i = choose|i: int|
            0 <= i < binds.len() && crate::binds::same_bind(#[trigger] binds[i], last);
        assert(crate::binds::same_bind((binds + init)[i], last));
    }
}

/// The nodes are gone through to the end where each is usable, and only there, and then their
/// binds are added as far as they are new.
proof fn lemma_appended_outcome(
    device: Seq<char>,
    spec_path: Seq<u8>,
    nodes: Seq<crate::spec_file::NodeView>,
    present: Seq<Seq<u8>>,
    earlier: Seq<crate::binds::BindView>,
)
    ensures
        ({
            let after = crate::binds::appended(
                device,
                spec_path,
                nodes,
                present,
                first_occurrences(earlier),
            );
            &&& after.problem is None <==> all_usable(nodes, present)
            &&& after.problem is None ==> after.binds == first_occurrences(
                earlier + node_binds(nodes),
            )
        }),
    decreases nodes.len(),
{
    let before = first_occurrences(earlier);
    let after = crate::binds::appended(device, spec_path, nodes, present, before);
    if nodes.len() == 0 {
        assert(earlier + node_binds(nodes) =~= earlier);
    } else {
        let init = nodes.drop_last();
        let last = nodes.last();
        let so_far = crate::binds::appended(device, spec_path, init, present, before);
        lemma_appended_outcome(device, spec_path, init, present, earlier);
        assert(all_usable(nodes, present) <==> all_usable(init, present) && crate::laws::is_usable(
            crate::binds::node_bind(last),
            present,
        )) by {
            assert(nodes[nodes.len() - 1] == last);
            if all_usable(nodes, present) {
                assert forall|i: int| 0 <= i < init.len() implies crate::laws::is_usable(
                    crate::binds::node_bind(#[trigger] init[i]),
                    present,
                ) by {
                    assert(init[i] == nodes[i]);
                }
            }
            if all_usable(init, present) {
                assert forall|i: int| 0 <= i < nodes.len() - 1 implies crate::laws::is_usable(
                    crate::binds::node_bind(#[trigger] nodes[i]),
                    present,
                ) by {
                    assert(init[i] == nodes[i]);
                }
            }
        }
        if after.problem is None {
            let binds = earlier + node_binds(nodes);
            assert(binds.drop_last() =~= earlier + node_binds(init));
            assert(binds.last() == crate::binds::node_bind(last));
            lemma_first_occurrences_bind_the_same(binds.drop_last(), binds.last());
        }
    }
}

proof fn lemma_requested_nodes_at(
    known: Map<Seq<char>, crate::table::EffectiveView>,
    names: Seq<Seq<char>>,
    i: int,
    k: int,
) -> (place: int)
    requires
        0 <= i < names.len(),
        0 <= k < known_nodes(known, names[i]).len(),
    ensures
        0 <= place < requested_nodes(known, names).len(),
        requested_nodes(known, names)[place] == known_nodes(known, names[i])[k],
    decreases names.len(),
{
    let init = names.drop_last();
    if i < init.len() {
        lemma_requested_nodes_at(known, init, i, k)
    } else {
        requested_nodes(known, init).len() + k
    }
}

/// To name a device again adds no bind.
proof fn lemma_repeated_names(
    known: Map<Seq<char>, crate::table::EffectiveView>,
    names: Seq<Seq<char>>,
)
    ensures
        first_occurrences(node_binds(requested_nodes(known, names))) == first_occurrences(
            node_binds(requested_nodes(known, names.remove_duplicates(seq![]))),
        ),
    decreases names.len(),
{
    let none: Seq<Seq<char>> = seq![];
    if names.len() > 0 {
        let init = names.drop_last();
        let last = names.last();
        let once = init.remove_duplicates(none);
        assert(names =~= init + seq![last]);
        assert(init + none =~= init);
        init.lemma_remove_duplicates_append(last, none);
        lemma_repeated_names(known, init);
        let a = requested_nodes(known, init);
        let b = requested_nodes(known, once);
        let added = known_nodes(known, last);
        assert(node_binds(a + added) =~= node_binds(a) + node_binds(added));
        if init.contains(last) {
            let i = choose|i: int| 0 <= i < init.len() && init[i] == last;
            assert forall|k: int| 0 <= k < node_binds(added).len() implies crate::binds::is_bound(
                node_binds(a),
                #[trigger] node_binds(added)[k],
            ) by {
                let place = lemma_requested_nodes_at(known, init, i, k);
                assert(crate::binds::same_bind(node_binds(a)[place], node_binds(added)[k]));
            }
            lemma_bound_adds_nothing(node_binds(a), node_binds(added));
        } else {
            assert((once + seq![last]).drop_last() =~= once);
            assert(node_binds(b + added) =~= node_binds(b) + node_binds(added));
            lemma_first_occurrences_behind(node_binds(a), node_binds(b), node_binds(added));
        }
    } else {
        assert(names =~= none);
        assert(names.remove_duplicates(none) =~= none) by {
            names.lemma_remove_duplicates_properties(none);
        }
    }
}

/// The devices that were selected are those with the names.
spec fn are_selected(
    known: Map<Seq<char>, crate::table::EffectiveView>,
    names: Seq<Seq<char>>,
    selected: Seq<crate::binds::SelectedView>,
) -> bool {
    &&& selected.len() == names.len()
    &&& forall|i: int|
        0 <= i < names.len() ==> (#[trigger] selected[i]).name == names[i] && known.get(names[i])
            == Some(crate::table::EffectiveView::Resolved(selected[i].device))
}

/// Each node that one of the devices needs is usable.
spec fn all_nodes_usable(
    selected: Seq<crate::binds::SelectedView>,
    present: Seq<Seq<u8>>,
) -> bool {
    forall|i: int|
        0 <= i < selected.len() ==> all_usable(
            (#[trigger] selected[i]).device.global_device_nodes,
            present,
        ) && all_usable(selected[i].device.device_nodes, present)
}

proof fn lemma_required_outcome(
    known: Map<Seq<char>, crate::table::EffectiveView>,
    names: Seq<Seq<char>>,
    selected: Seq<crate::binds::SelectedView>,
    present: Seq<Seq<u8>>,
)
    requires
        are_selected(known, names, selected),
        all_agree_on_shared_nodes(known, names),
    ensures
        crate::binds::required_binds(selected, present) is Ok <==> all_nodes_usable(
            selected,
            present,
        ),
        crate::binds::required_binds(selected, present) matches Ok(binds) ==> binds
            == first_occurrences(node_binds(requested_nodes(known, names))),
    decreases selected.len(),
{
    if selected.len() == 0 {
        assert(node_binds(requested_nodes(known, names)) =~= seq![]);
    } else {
        let init = selected.drop_last();
        let added = selected.last();
        let device = added.device;
        let fewer = names.drop_last();
        let n = selected.len() - 1;
        assert(selected[n] == added);
        assert(forall|i: int| 0 <= i < n ==> #[trigger] init[i] == selected[i]);
        assert forall|i: int| 0 <= i < n implies (#[trigger] init[i]).name == fewer[i]
            && known.get(fewer[i]) == Some(
            crate::table::EffectiveView::Resolved(init[i].device),
        ) by {
            assert(init[i] == selected[i]);
        }
        assert forall|i: int, j: int|
            0 <= i < fewer.len() && 0 <= j < fewer.len() implies agree_on_shared_nodes(
            known,
            #[trigger] fewer[i],
            #[trigger] fewer[j],
        ) by {
            assert(agree_on_shared_nodes(known, names[i], names[j]));
        }
        lemma_required_outcome(known, fewer, init, present);
        assert(all_nodes_usable(selected, present) <==> all_nodes_usable(init, present)
            && all_usable(device.global_device_nodes, present) && all_usable(
            device.device_nodes,
            present,
        )) by {
            if all_nodes_usable(init, present) && all_usable(device.global_device_nodes, present)
                && all_usable(device.device_nodes, present) {
                assert forall|i: int| 0 <= i < selected.len() implies all_usable(
                    (#[trigger] selected[i]).device.global_device_nodes,
                    present,
                ) && all_usable(selected[i].device.device_nodes, present) by {
                    if i < n {
                        assert(init[i] == selected[i]);
                    }
                }
            }
            if all_nodes_usable(selected, present) {
                assert forall|i: int| 0 <= i < init.len() implies all_usable(
                    (#[trigger] init[i]).device.global_device_nodes,
                    present,
                ) && all_usable(init[i].device.device_nodes, present) by {
                    assert(init[i] == selected[i]);
                }
            }
        }
        if crate::binds::required_binds(init, present) is Ok {
            let earlier = node_binds(requested_nodes(known, fewer));
            let shared = node_binds(device.global_device_nodes);
            let own = node_binds(device.device_nodes);
            lemma_appended_outcome(
                added.name,
                device.spec_path,
                device.global_device_nodes,
                present,
                earlier,
            );
            if crate::binds::has_device_of(init, device.spec_path) {
                let m = choose|m: int|
                    0 <= m < init.len() && crate::path::same_path(
                        (#[trigger] init[m]).device.spec_path,
                        device.spec_path,
                    );
                assert(selected[m] == init[m]);
                assert(agree_on_shared_nodes(known, names[m], names[n]));
                assert(init[m].device.global_device_nodes == device.global_device_nodes);
                assert forall|k: int| 0 <= k < shared.len() implies crate::binds::is_bound(
                    earlier,
                    #[trigger] shared[k],
                ) by {
                    assert(known_nodes(known, fewer[m]) == nodes_of(init[m].device));
                    let place = lemma_requested_nodes_at(known, fewer, m, k);
                    assert(crate::binds::same_bind(earlier[place], shared[k]));
                }
                lemma_bound_adds_nothing(earlier, shared);
            }
            lemma_appended_outcome(
                added.name,
                device.spec_path,
                device.device_nodes,
                present,
                earlier + shared,
            );
            assert(known_nodes(known, names.last()) == nodes_of(device));
            assert(node_binds(requested_nodes(known, names)) =~= earlier + shared + own);
        }
    }
}

proof fn lemma_once_names(devices: Seq<Seq<char>>)
    ensures
        ({
            let names = devices.remove_duplicates(seq![]);
            &&& forall|i: int| 0 <= i < names.len() ==> devices.contains(#[trigger] names[i])
            &&& forall|i: int| 0 <= i < devices.len() ==> names.contains(#[trigger] devices[i])
        }),
{
    let names = devices.remove_duplicates(seq![]);
    devices.lemma_remove_duplicates_properties(seq![]);
    assert forall|i: int| 0 <= i < names.len() implies devices.contains(#[trigger] names[i]) by {
        assert(names.contains(names[i]));
    }
    assert forall|i: int| 0 <= i < devices.len() implies names.contains(#[trigger] devices[i]) by {
        assert(devices.contains(devices[i]));
    }
}

/// Each of the devices is known, and defined once where it is known.
pub open spec fn all_resolved(
    known: Map<Seq<char>, crate::table::EffectiveView>,
    names: Seq<Seq<char>>,
) -> bool {
    forall|i: int|
        0 <= i < names.len() ==> known.get(#[trigger] names[i]) matches Some(
            crate::table::EffectiveView::Resolved(_),
        )
}

proof fn lemma_selected_outcome(
    names: Seq<Seq<char>>,
    known: Map<Seq<char>, crate::table::EffectiveView>,
    paths: Seq<Seq<u8>>,
    scan_errors: Seq<Seq<char>>,
)
    ensures
        crate::resolve::selected_devices(names, known, paths, scan_errors) is Ok <==> all_resolved(
            known,
            names,
        ),
        crate::resolve::selected_devices(names, known, paths, scan_errors) matches Ok(selected)
            ==> are_selected(known, names, selected),
    decreases names.len(),
{
    if names.len() > 0 {
        let init = names.drop_last();
        lemma_selected_outcome(init, known, paths, scan_errors);
        assert(names[names.len() - 1] == names.last());
        assert(forall|i: int| 0 <= i < init.len() ==> #[trigger] init[i] == names[i]);
        if all_resolved(known, names) {
            assert forall|i: int| 0 <= i < init.len() implies known.get(
                #[trigger] init[i],
            ) matches Some(crate::table::EffectiveView::Resolved(_)) by {
                assert(init[i] == names[i]);
            }
        }
        if all_resolved(known, init) {
            assert forall|i: int| 0 <= i < names.len() - 1 implies known.get(
                #[trigger] names[i],
            ) matches Some(crate::table::EffectiveView::Resolved(_)) by {
                assert(init[i] == names[i]);
            }
        }
    }
}

/// A request fails where one of its devices cannot be had, and only there: its name is no qualified
/// name, no directory knows it, it is defined more than once where it is known, or one of the nodes
/// that it needs, shared or its own, is not at absolute paths or not present on the host.
pub proof fn law_requests_fail_where_a_device_cannot_be_had(
    devices: Seq<Seq<char>>,
    paths: Seq<Seq<u8>>,
    scans: Seq<crate::scan::ScanView>,
    present: Seq<Seq<u8>>,
)
    requires
        all_agree_on_shared_nodes(crate::resolve::effective_devices(scans), devices),
    ensures
        crate::resolve::resolution(devices, paths, scans, present) is Err <==> exists|i: int|
            0 <= i < devices.len() && !can_be_had(
                crate::resolve::effective_devices(scans),
                #[trigger] devices[i],
                present,
            ),
{
    let known = crate::resolve::effective_devices(scans);
    let errors = crate::resolve::ignored_specs(scans);
    let names = devices.remove_duplicates(seq![]);
    crate::laws::law_requests_hold_qualified_names(devices);
    lemma_once_names(devices);
    lemma_agreement_once(known, devices);
    lemma_selected_outcome(names, known, paths, errors);
    if crate::resolve::requested(devices) is Ok {
        if let Ok(selected) = crate::resolve::selection(devices, paths, scans) {
            lemma_required_outcome(known, names, selected, present);
            if all_nodes_usable(selected, present) {
                assert forall|i: int| 0 <= i < devices.len() implies can_be_had(
                    known,
                    #[trigger] devices[i],
                    present,
                ) by {
                    assert(names.contains(devices[i]));
                    let k = choose|k: int| 0 <= k < names.len() && names[k] == devices[i];
                    assert(selected[k].name == names[k]);
                }
            } else {
                let k = choose|k: int|
                    0 <= k < selected.len() && !(all_usable(
                        (#[trigger] selected[k]).device.global_device_nodes,
                        present,
                    ) && all_usable(selected[k].device.device_nodes, present));
                assert(devices.contains(names[k]));
                let i = choose|i: int| 0 <= i < devices.len() && devices[i] == names[k];
                assert(!can_be_had(known, devices[i], present));
            }
        } else {
            let k = choose|k: int|
                0 <= k < names.len() && !(known.get(#[trigger] names[k]) matches Some(
                    crate::table::EffectiveView::Resolved(_),
                ));
            assert(devices.contains(names[k]));
            let i = choose|i: int| 0 <= i < devices.len() && devices[i] == names[k];
            assert(!can_be_had(known, devices[i], present));
        }
    } else {
        let i = choose|i: int|
            0 <= i < devices.len() && !crate::names::is_qualified_name(#[trigger] devices[i]);
        assert(!can_be_had(known, devices[i], present));
    }
}

proof fn lemma_agreement_once(
    known: Map<Seq<char>, crate::table::EffectiveView>,
    devices: Seq<Seq<char>>,
)
    requires
        all_agree_on_shared_nodes(known, devices),
    ensures
        all_agree_on_shared_nodes(known, devices.remove_duplicates(seq![])),
{
    let names = devices.remove_duplicates(seq![]);
    lemma_once_names(devices);
    assert forall|i: int, j: int|
        0 <= i < names.len() && 0 <= j < names.len() implies agree_on_shared_nodes(
        known,
        #[trigger] names[i],
        #[trigger] names[j],
    ) by {
        assert(devices.contains(names[i]) && devices.contains(names[j]));
        let p = choose|p: int| 0 <= p < devices.len() && devices[p] == names[i];
        let q = choose|q: int| 0 <= q < devices.len() && devices[q] == names[j];
        assert(agree_on_shared_nodes(known, devices[p], devices[q]));
    }
}

/// A request resolves to the first occurrences, in order, of the binds of all nodes that its devices
/// need: device by device as they are named, for each the nodes that every device of its
/// specification needs and then its own. Each of the devices is then known and valid.
pub proof fn law_binds_are_first_occurrences(
    devices: Seq<Seq<char>>,
    paths: Seq<Seq<u8>>,
    scans: Seq<crate::scan::ScanView>,
    present: Seq<Seq<u8>>,
)
    requires
        all_agree_on_shared_nodes(crate::resolve::effective_devices(scans), devices),
    ensures
        crate::resolve::resolution(devices, paths, scans, present) matches Ok(binds) ==> {
            &&& all_resolved(crate::resolve::effective_devices(scans), devices)
            &&& binds == first_occurrences(
                node_binds(requested_nodes(crate::resolve::effective_devices(scans), devices)),
            )
        },
{
    let known = crate::resolve::effective_devices(scans);
    let names = devices.remove_duplicates(seq![]);
    lemma_agreement_once(known, devices);
    lemma_once_names(devices);
    lemma_selected_outcome(names, known, paths, crate::resolve::ignored_specs(scans));
    lemma_repeated_names(known, devices);
    if let Ok(selected) = crate::resolve::selection(devices, paths, scans) {
        lemma_required_outcome(known, names, selected, present);
        assert forall|i: int| 0 <= i < devices.len() implies known.get(
            #[trigger] devices[i],
        ) matches Some(crate::table::EffectiveView::Resolved(_)) by {
            assert(names.contains(devices[i]));
            let k = choose|k: int| 0 <= k < names.len() && names[k] == devices[i];
            assert(known.get(names[k]) matches Some(crate::table::EffectiveView::Resolved(_)));
        }
    }
}

/// A device is known where some directory knows it, and only there.
pub proof fn law_devices_are_known_where_a_directory_knows_them(
    scans: Seq<crate::scan::ScanView>,
    name: Seq<char>,
)
    ensures
        crate::resolve::effective_devices(scans).contains_key(name) <==> exists|i: int|
            0 <= i < scans.len() && (#[trigger] scans[i]).entries.contains_key(name),
    decreases scans.len(),
{
    if scans.len() > 0 {
        let rest = scans.drop_first();
        law_devices_are_known_where_a_directory_knows_them(rest, name);
        if exists|i: int| 0 <= i < scans.len() && (#[trigger] scans[i]).entries.contains_key(name) {
            let i = choose|i: int|
                0 <= i < scans.len() && (#[trigger] scans[i]).entries.contains_key(name);
            if i > 0 {
                assert(rest[i - 1].entries.contains_key(name));
            }
        }
        if crate::resolve::effective_devices(rest).contains_key(name) {
            let i = choose|i: int|
                0 <= i < rest.len() && (#[trigger] rest[i]).entries.contains_key(name);
            assert(scans[i + 1].entries.contains_key(name));
        }
    }
}

/// Whatever file was found at one path in both directories was read alike.
pub open spec fn read_alike(a: SpecDir, b: SpecDir) -> bool {
    match (
        crate::listing::found_spec_files(a.listing),
        crate::listing::found_spec_files(b.listing),
    ) {
        (Ok(x), Ok(y)) => forall|k: int, l: int|
            0 <= k < x.len() && 0 <= l < y.len() && crate::path::same_path(
                (#[trigger] x[k]).path@,
                (#[trigger] y[l]).path@,
            ) ==> x[k].contents.deep_view() == y[l].contents.deep_view(),
        _ => true,
    }
}

/// No file changed while the directories were read: whatever was read at one path is the same.
pub open spec fn files_did_not_change(dirs: Seq<SpecDir>) -> bool {
    forall|i: int, j: int|
        0 <= i < dirs.len() && 0 <= j < dirs.len() ==> read_alike(
            #[trigger] dirs[i],
            #[trigger] dirs[j],
        )
}

/// Where the definition of a known device was read.
proof fn lemma_device_origin(dirs: Seq<SpecDir>, name: Seq<char>) -> (origin: (int, int))
    requires
        crate::resolve::effective_devices(crate::resolve::dir_scans(dirs)).get(name) matches Some(
            crate::table::EffectiveView::Resolved(_),
        ),
    ensures
        0 <= origin.0 < dirs.len(),
        crate::listing::found_spec_files(dirs[origin.0].listing) matches Ok(files) && {
            &&& 0 <= origin.1 < files.len()
            &&& crate::spec_file::parsed_spec(
                files[origin.1].path@,
                files[origin.1].contents.deep_view(),
            ) matches Ok(parsed) && crate::resolve::effective_devices(
                crate::resolve::dir_scans(dirs),
            ).get(name) matches Some(crate::table::EffectiveView::Resolved(device)) && {
                &&& device.spec_path == files[origin.1].path@
                &&& device.global_device_nodes == parsed.global_device_nodes
            }
        },
    decreases dirs.len(),
{
    let scans = crate::resolve::dir_scans(dirs);
    let rest = dirs.drop_first();
    assert(crate::resolve::dir_scans(rest) =~= scans.drop_first());
    if scans[0].entries.contains_key(name) {
        let dir = dirs[0].path@;
        assert(crate::listing::found_spec_files(dirs[0].listing) is Ok);
        let files = crate::listing::found_spec_files(dirs[0].listing)->Ok_0;
        let defined = crate::scan::definitions(files);
        let named = |d: crate::scan::Definition| d.name == name;
        let found = crate::scan::definitions_of(defined, name);
        assert(crate::scan::verdict(dir, defined, name) is Some);
        assert(found.len() == 1);
        assert(found.contains(found[0]));
        defined.lemma_filter_contains_rev(named, found[0]);
        let i = choose|i: int| 0 <= i < defined.len() && defined[i] == found[0];
        let origin = crate::laws::lemma_definition_origin(files, i);
        (0, origin)
    } else {
        let origin = lemma_device_origin(rest, name);
        assert(rest[origin.0] == dirs[origin.0 + 1]);
        (origin.0 + 1, origin.1)
    }
}

/// Where no file changed while the directories were read, devices of one file agree on the nodes
/// that every device of that file needs.
pub proof fn law_unchanged_files_agree_on_shared_nodes(dirs: Seq<SpecDir>, names: Seq<Seq<char>>)
    requires
        files_did_not_change(dirs),
    ensures
        all_agree_on_shared_nodes(
            crate::resolve::effective_devices(crate::resolve::dir_scans(dirs)),
            names,
        ),
{
    let known = crate::resolve::effective_devices(crate::resolve::dir_scans(dirs));
    assert forall|i: int, j: int|
        0 <= i < names.len() && 0 <= j < names.len() implies agree_on_shared_nodes(
        known,
        #[trigger] names[i],
        #[trigger] names[j],
    ) by {
        if let (
            Some(crate::table::EffectiveView::Resolved(x)),
            Some(crate::table::EffectiveView::Resolved(y)),
        ) = (known.get(names[i]), known.get(names[j])) {
            let (a, k) = lemma_device_origin(dirs, names[i]);
            let (b, l) = lemma_device_origin(dirs, names[j]);
            assert(read_alike(dirs[a], dirs[b]));
            let at_a = crate::listing::found_spec_files(dirs[a].listing)->Ok_0;
            let at_b = crate::listing::found_spec_files(dirs[b].listing)->Ok_0;
            if crate::path::same_path(x.spec_path, y.spec_path) {
                assert(crate::path::same_path(at_a[k].path@, at_b[l].path@));
            }
        }
    }
}

/// Where no file changed while the directories were read, a request fails where one of its devices
/// cannot be had, and only there, and resolves otherwise to the first occurrences, in order, of the
/// binds of all nodes that its devices need.
pub proof fn law_resolution_from_unchanged_files(
    devices: Seq<Seq<char>>,
    dirs: Seq<SpecDir>,
    present: Seq<Seq<u8>>,
)
    requires
        files_did_not_change(dirs),
    ensures
        ({
            let scans = crate::resolve::dir_scans(dirs);
            let known = crate::resolve::effective_devices(scans);
            match crate::resolve::resolution(
                devices,
                crate::resolve::dir_paths(dirs),
                scans,
                present,
            ) {
                Ok(binds) => {
                    &&& forall|i: int|
                        0 <= i < devices.len() ==> can_be_had(known, #[trigger] devices[i], present)
                    &&& binds == first_occurrences(node_binds(requested_nodes(known, devices)))
                },
                Err(_) => exists|i: int|
                    0 <= i < devices.len() && !can_be_had(known, #[trigger] devices[i], present),
            }
        }),
{
    let paths = crate::resolve::dir_paths(dirs);
    let scans = crate::resolve::dir_scans(dirs);
    law_unchanged_files_agree_on_shared_nodes(dirs, devices);
    law_requests_fail_where_a_device_cannot_be_had(devices, paths, scans, present);
    law_binds_are_first_occurrences(devices, paths, scans, present);
}

} // verus!

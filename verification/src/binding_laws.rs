//! Which directories, devices and nodes decide about the binds of a request, and what is told where
//! there are none.

use crate::resolve::SpecDir;
use vstd::prelude::*;

verus! {

/// What a directory contributes does not depend on the directories around it: it is what the
/// directory holds when it is scanned alone.
pub proof fn law_directories_are_scanned_alone(dirs: Seq<SpecDir>, i: int)
    requires
        0 <= i < dirs.len(),
    ensures
        crate::resolve::dir_scans(dirs).len() == dirs.len(),
        crate::resolve::dir_scans(dirs)[i] == crate::scan::scanned(
            dirs[i].path.bytes@,
            dirs[i].listing,
        ),
        crate::resolve::dir_scans(seq![dirs[i]]) == seq![crate::resolve::dir_scans(dirs)[i]],
        crate::resolve::dir_paths(dirs).len() == dirs.len(),
        crate::resolve::dir_paths(dirs)[i] == dirs[i].path.bytes@,
{
    assert(crate::resolve::dir_scans(seq![dirs[i]]) =~= seq![crate::resolve::dir_scans(dirs)[i]]);
}

proof fn lemma_scan_that_knows_nothing(
    scans: Seq<crate::scan::ScanView>,
    i: int,
    added: crate::scan::ScanView,
)
    requires
        0 <= i <= scans.len(),
        forall|name: Seq<char>| !#[trigger] added.entries.contains_key(name),
    ensures
        crate::resolve::effective_devices(scans.insert(i, added))
            == crate::resolve::effective_devices(scans),
    decreases scans.len(),
{
    let more = scans.insert(i, added);
    if i == 0 {
        assert(more.drop_first() =~= scans);
    } else {
        assert(more.drop_first() =~= scans.drop_first().insert(i - 1, added));
        assert(more[0] == scans[0]);
        lemma_scan_that_knows_nothing(scans.drop_first(), i - 1, added);
    }
    assert(crate::resolve::effective_devices(more) =~= crate::resolve::effective_devices(scans));
}

/// A directory that cannot be searched, wherever it stands among the directories, leaves what is
/// known of every device as it is without that directory.
pub proof fn law_directories_that_cannot_be_searched_change_nothing(
    dirs: Seq<SpecDir>,
    i: int,
    dir: SpecDir,
)
    requires
        0 <= i <= dirs.len(),
        crate::listing::found_spec_files(dir.listing) is Err,
    ensures
        crate::resolve::effective_devices(crate::resolve::dir_scans(dirs.insert(i, dir)))
            == crate::resolve::effective_devices(crate::resolve::dir_scans(dirs)),
{
    let added = crate::scan::scanned(dir.path@, dir.listing);
    assert forall|name: Seq<char>| !#[trigger] added.entries.contains_key(name) by {
        crate::reading_laws::law_directories_that_cannot_be_searched(dir.path@, dir.listing, name);
    }
    assert(crate::resolve::dir_scans(dirs.insert(i, dir)) =~= crate::resolve::dir_scans(
        dirs,
    ).insert(i, added));
    lemma_scan_that_knows_nothing(crate::resolve::dir_scans(dirs), i, added);
}

/// What is known of a device is what the first directory that knows it says when it is scanned
/// alone, and nothing where no directory knows it.
pub proof fn law_first_directory_read_decides(dirs: Seq<SpecDir>, name: Seq<char>, i: int)
    requires
        0 <= i <= dirs.len(),
        forall|j: int|
            0 <= j < i ==> !crate::scan::scanned(
                (#[trigger] dirs[j]).path.bytes@,
                dirs[j].listing,
            ).entries.contains_key(name),
        i < dirs.len() ==> crate::scan::scanned(
            dirs[i].path.bytes@,
            dirs[i].listing,
        ).entries.contains_key(name),
    ensures
        crate::resolve::effective_devices(crate::resolve::dir_scans(dirs)).get(name) == if i
            < dirs.len() {
            crate::scan::scanned(dirs[i].path.bytes@, dirs[i].listing).entries.get(name)
        } else {
            None
        },
{
    let scans = crate::resolve::dir_scans(dirs);
    assert forall|j: int| 0 <= j < i implies !(#[trigger] scans[j]).entries.contains_key(name) by {
        law_directories_are_scanned_alone(dirs, j);
        assert(!crate::scan::scanned(dirs[j].path.bytes@, dirs[j].listing).entries.contains_key(
            name,
        ));
    }
    if i < dirs.len() {
        law_directories_are_scanned_alone(dirs, i);
    }
    crate::laws::law_first_directory_decides(scans, name, i);
}

/// What was ignored in several directories is what was ignored in each of them, those that come
/// last first.
pub proof fn law_ignored_specifications(
    before: Seq<crate::scan::ScanView>,
    after: Seq<crate::scan::ScanView>,
    one: crate::scan::ScanView,
)
    ensures
        crate::resolve::ignored_specs(seq![]).len() == 0,
        crate::resolve::ignored_specs(seq![one]) == one.scan_errors,
        crate::resolve::ignored_specs(before + after) == crate::resolve::ignored_specs(after)
            + crate::resolve::ignored_specs(before),
    decreases before.len(),
{
    let alone = seq![one];
    assert(alone.drop_first() =~= Seq::<crate::scan::ScanView>::empty());
    assert(crate::resolve::ignored_specs(alone.drop_first()) =~= Seq::<Seq<char>>::empty());
    assert(crate::resolve::ignored_specs(alone) =~= one.scan_errors);
    if before.len() == 0 {
        assert(before + after =~= after);
        assert(crate::resolve::ignored_specs(after) + crate::resolve::ignored_specs(before)
            =~= crate::resolve::ignored_specs(after));
    } else {
        law_ignored_specifications(before.drop_first(), after, one);
        assert((before + after).drop_first() =~= before.drop_first() + after);
        assert(crate::resolve::ignored_specs(before + after) =~= crate::resolve::ignored_specs(
            after,
        ) + crate::resolve::ignored_specs(before));
    }
}

/// Of a device that no directory knows it is told where it was looked for, by the paths of the
/// directories as they are shown, and, where specifications were ignored, why.
pub proof fn law_what_is_told_of_missing_devices(
    device: Seq<char>,
    paths: Seq<Seq<u8>>,
    shown: Seq<Seq<char>>,
    scan_errors: Seq<Seq<char>>,
)
    requires
        shown.len() == paths.len(),
        forall|i: int|
            0 <= i < paths.len() ==> #[trigger] shown[i] == crate::path::path_text(paths[i]),
    ensures
        crate::resolve::missing_message(device, paths, seq![]) == "CDI device `"@ + device
            + "` was not found in "@ + crate::text::joined(shown, ", "@),
        scan_errors.len() > 0 ==> crate::resolve::missing_message(device, paths, scan_errors)
            == "CDI device `"@ + device + "` was not found in "@ + crate::text::joined(shown, ", "@)
            + "; ignored malformed CDI specs: "@ + crate::text::joined(scan_errors, "; "@),
{
    let texts = Seq::new(paths.len(), |i: int| crate::path::path_text(paths[i]));
    assert(texts =~= shown);
}

/// One more name in a request: a request that was refused stays refused for the same reason, a name
/// that is wrong is a reason to refuse, and a name that is right is asked for at the end, unless it
/// was asked for before.
pub proof fn law_one_more_name(devices: Seq<Seq<char>>, added: Seq<char>)
    ensures
        crate::resolve::requested(seq![]) == Ok::<Seq<Seq<char>>, Seq<char>>(seq![]),
        match (
            crate::resolve::requested(devices),
            crate::names::qualified_name_problem(added),
            crate::resolve::requested(devices.push(added)),
        ) {
            (Err(problem), _, result) => result == Err::<Seq<Seq<char>>, Seq<char>>(problem),
            (Ok(_), Some(problem), result) => result == Err::<Seq<Seq<char>>, Seq<char>>(problem),
            (Ok(names), None, result) => result == Ok::<Seq<Seq<char>>, Seq<char>>(
                if devices.contains(added) {
                    names
                } else {
                    names.push(added)
                },
            ),
        },
{
    let none: Seq<Seq<char>> = seq![];
    none.lemma_remove_duplicates_properties(none);
    assert(none.remove_duplicates(none) =~= none);
    assert(devices.push(added).drop_last() =~= devices);
    assert(devices.push(added) =~= devices + seq![added]);
    assert(devices + none =~= devices);
    devices.lemma_remove_duplicates_append(added, none);
    let names = devices.remove_duplicates(none);
    assert(names + seq![added] =~= names.push(added));
}

/// A request that is refused for its names is not looked up; else its devices are looked up in
/// order, and the first that is not known or is invalid decides; where there is none, all of them are
/// selected as they are known.
pub proof fn law_what_a_request_selects(
    devices: Seq<Seq<char>>,
    paths: Seq<Seq<u8>>,
    scans: Seq<crate::scan::ScanView>,
    n: int,
)
    requires
        crate::resolve::requested(devices) matches Ok(names) ==> {
            &&& 0 <= n <= names.len()
            &&& forall|i: int|
                0 <= i < n ==> crate::resolve::effective_devices(scans).get(
                    #[trigger] names[i],
                ) is Some && crate::resolve::effective_devices(scans)[names[i]] is Resolved
            &&& n < names.len() ==> !(crate::resolve::effective_devices(scans).get(
                names[n],
            ) is Some && crate::resolve::effective_devices(scans)[names[n]] is Resolved)
        },
    ensures
        ({
            let known = crate::resolve::effective_devices(scans);
            match (crate::resolve::requested(devices), crate::resolve::selection(
                devices,
                paths,
                scans,
            )) {
                (Err(problem), result) => result == Err::<
                    Seq<crate::binds::SelectedView>,
                    Seq<char>,
                >(problem),
                (Ok(names), Ok(selected)) => {
                    &&& n == names.len()
                    &&& selected.len() == names.len()
                    &&& forall|i: int|
                        0 <= i < names.len() ==> (#[trigger] selected[i]).name == names[i]
                            && known.get(names[i]) == Some(
                            crate::table::EffectiveView::Resolved(selected[i].device),
                        )
                },
                (Ok(names), Err(problem)) => {
                    &&& n < names.len()
                    &&& known.get(names[n]) is None ==> problem == crate::resolve::missing_message(
                        names[n],
                        paths,
                        crate::resolve::ignored_specs(scans),
                    )
                    &&& known.get(names[n]) is Some ==> known.get(names[n]) == Some(
                        crate::table::EffectiveView::InvalidDuplicate { message: problem },
                    )
                },
            }
        }),
{
    if let Ok(names) = crate::resolve::requested(devices) {
        let known = crate::resolve::effective_devices(scans);
        assert forall|i: int| 0 <= i < n implies (known.get(#[trigger] names[i]) matches Some(
            crate::table::EffectiveView::Resolved(_),
        )) by {
            assert(known.get(names[i]) is Some && known[names[i]] is Resolved);
        }
        crate::laws::law_first_unavailable_device_decides(
            names,
            known,
            paths,
            crate::resolve::ignored_specs(scans),
            n,
        );
    }
}

/// A request that selects devices resolves as these devices do, and one that does not is refused for
/// the same reason.
pub proof fn law_requests_resolve_as_their_devices_do(
    devices: Seq<Seq<char>>,
    paths: Seq<Seq<u8>>,
    scans: Seq<crate::scan::ScanView>,
    present: Seq<Seq<u8>>,
)
    ensures
        match (
            crate::resolve::selection(devices, paths, scans),
            crate::resolve::resolution(devices, paths, scans, present),
        ) {
            (Ok(selected), result) => result == crate::binds::required_binds(selected, present),
            (Err(problem), result) => result == Err::<Seq<crate::binds::BindView>, Seq<char>>(
                problem,
            ),
        },
{
}

/// The whole host path of a node where it has one, else its path.
pub open spec fn written_source(node: crate::spec_file::NodeView) -> Seq<char> {
    if node.host_path is Some {
        node.host_path->Some_0
    } else {
        node.path
    }
}

/// The text begins with a slash.
pub open spec fn begins_with_slash(text: Seq<char>) -> bool {
    text.len() > 0 && text[0] == '/'
}

/// The bind of a node has the whole of the node's path as its destination, and as its source the
/// whole of its host path where it has one, else the whole of its path.
pub proof fn law_binds_of_nodes(node: crate::spec_file::NodeView)
    ensures
        crate::binds::node_bind(node).destination == vstd::utf8::encode_utf8(node.path),
        node.host_path is Some ==> crate::binds::node_bind(node).source
            == vstd::utf8::encode_utf8(node.host_path->Some_0),
        node.host_path is None ==> crate::binds::node_bind(node).source
            == vstd::utf8::encode_utf8(node.path),
        crate::path::path_text(crate::binds::node_bind(node).destination) == node.path,
        node.host_path is Some ==> crate::path::path_text(crate::binds::node_bind(node).source)
            == node.host_path->Some_0,
        node.host_path is None ==> crate::path::path_text(crate::binds::node_bind(node).source)
            == node.path,
{
    crate::path_laws::law_paths_are_written_in_utf8(node.path, seq![]);
    crate::path_laws::law_paths_are_written_in_utf8(written_source(node), seq![]);
}

/// What is told of a node, when `present` are the nodes of the host.
pub open spec fn told_of_node(
    device: Seq<char>,
    spec_path: Seq<u8>,
    node: crate::spec_file::NodeView,
    present: Seq<Seq<u8>>,
) -> Option<Seq<char>> {
    if !begins_with_slash(node.path) {
        Some(
            "CDI device `"@ + device + "` in "@ + crate::path::path_text(spec_path)
                + " references non-absolute device node path `"@ + node.path + "`"@,
        )
    } else if !begins_with_slash(written_source(node)) {
        Some(
            "CDI device `"@ + device + "` in "@ + crate::path::path_text(spec_path)
                + " references non-absolute host device node path `"@ + written_source(node) + "`"@,
        )
    } else if !present.contains(vstd::utf8::encode_utf8(written_source(node))) {
        Some(
            "CDI device `"@ + device + "` requires missing host device node "@ + written_source(
                node,
            ),
        )
    } else {
        None
    }
}

/// A node is wrong where its path does not begin with a slash, or else its source does not, or else
/// the source is not among the nodes of the host; the message shows the text that is at fault.
pub proof fn law_what_is_told_of_nodes(
    device: Seq<char>,
    spec_path: Seq<u8>,
    node: crate::spec_file::NodeView,
    present: Seq<Seq<u8>>,
)
    ensures
        crate::binds::node_problem(device, spec_path, node, present) == told_of_node(
            device,
            spec_path,
            node,
            present,
        ),
{
    law_binds_of_nodes(node);
    crate::path_laws::law_paths_are_written_in_utf8(node.path, seq![]);
    crate::path_laws::law_paths_are_written_in_utf8(written_source(node), seq![]);
    crate::laws::law_written_paths_are_absolute_behind_a_slash(node.path);
    crate::laws::law_written_paths_are_absolute_behind_a_slash(written_source(node));
}

/// The sources have the same components, and so have the destinations.
pub open spec fn join_the_same(a: crate::binds::BindView, b: crate::binds::BindView) -> bool {
    &&& crate::path::components(a.source) == crate::path::components(b.source)
    &&& crate::path::components(a.destination) == crate::path::components(b.destination)
}

/// Binds are the same where their sources have the same components and their destinations have.
pub proof fn law_same_binds(a: crate::binds::BindView, b: crate::binds::BindView)
    ensures
        crate::binds::same_bind(a, b) <==> join_the_same(a, b),
{
}

/// `before`, and behind it those of `more` that join paths which nothing before them joins.
pub open spec fn with_new_binds(
    before: Seq<crate::binds::BindView>,
    more: Seq<crate::binds::BindView>,
) -> Seq<crate::binds::BindView>
    decreases more.len(),
{
    if more.len() == 0 {
        before
    } else if exists|j: int|
        0 <= j < before.len() + more.len() - 1 && join_the_same(
            #[trigger] (before + more)[j],
            more.last(),
        ) {
        with_new_binds(before, more.drop_last())
    } else {
        with_new_binds(before, more.drop_last()).push(more.last())
    }
}

/// A node, and the device and the file that ask for it.
pub struct Need {
    pub device: Seq<char>,
    pub spec_path: Seq<u8>,
    pub node: crate::spec_file::NodeView,
}

/// The nodes as they are asked for by one device.
pub open spec fn needs_of(
    device: Seq<char>,
    spec_path: Seq<u8>,
    nodes: Seq<crate::spec_file::NodeView>,
) -> Seq<Need> {
    Seq::new(nodes.len(), |i: int| Need { device, spec_path, node: nodes[i] })
}

/// One of the devices is defined by a file at a path with the same components.
pub open spec fn file_is_known(
    selected: Seq<crate::binds::SelectedView>,
    spec_path: Seq<u8>,
) -> bool {
    exists|j: int|
        0 <= j < selected.len() && crate::path::components(
            (#[trigger] selected[j]).device.spec_path,
        ) == crate::path::components(spec_path)
}

/// All nodes that the devices ask for, in order: for each device those that its specification wants
/// for all its devices, unless a device before it is of the same file, and then its own.
pub open spec fn all_needs(selected: Seq<crate::binds::SelectedView>) -> Seq<Need>
    decreases selected.len(),
{
    if selected.len() == 0 {
        seq![]
    } else {
        let last = selected.last();
        all_needs(selected.drop_last()) + (if file_is_known(
            selected.drop_last(),
            last.device.spec_path,
        ) {
            seq![]
        } else {
            needs_of(last.name, last.device.spec_path, last.device.global_device_nodes)
        }) + needs_of(last.name, last.device.spec_path, last.device.device_nodes)
    }
}

/// The bind from the whole source of each node to the whole of its path.
pub open spec fn binds_of(needs: Seq<Need>) -> Seq<crate::binds::BindView> {
    Seq::new(
        needs.len(),
        |i: int|
            crate::binds::BindView {
                source: vstd::utf8::encode_utf8(written_source(needs[i].node)),
                destination: vstd::utf8::encode_utf8(needs[i].node.path),
            },
    )
}

/// What is told of the node that is asked for.
pub open spec fn told_of(need: Need, present: Seq<Seq<u8>>) -> Option<Seq<char>> {
    told_of_node(need.device, need.spec_path, need.node, present)
}

/// Where the first wrong node stands, or how many there are.
pub open spec fn is_first_wrong(needs: Seq<Need>, present: Seq<Seq<u8>>, k: int) -> bool {
    &&& 0 <= k <= needs.len()
    &&& forall|i: int| 0 <= i < k ==> told_of(#[trigger] needs[i], present) is None
    &&& k < needs.len() ==> told_of(needs[k], present) is Some
}

spec fn joined_by(
    before: Seq<crate::binds::BindView>,
    more: Seq<crate::binds::BindView>,
    bind: crate::binds::BindView,
) -> bool {
    exists|j: int|
        0 <= j < before.len() + more.len() && join_the_same(#[trigger] (before + more)[j], bind)
}

proof fn lemma_new_binds_join_the_same(
    before: Seq<crate::binds::BindView>,
    more: Seq<crate::binds::BindView>,
    bind: crate::binds::BindView,
)
    ensures
        crate::binds::is_bound(with_new_binds(before, more), bind) <==> joined_by(
            before,
            more,
            bind,
        ),
    decreases more.len(),
{
    let result = with_new_binds(before, more);
    let all = before + more;
    if more.len() == 0 {
        assert(all =~= before);
        if crate::binds::is_bound(result, bind) {
            let j = choose|j: int|
                0 <= j < result.len() && crate::binds::same_bind(#[trigger] result[j], bind);
            assert(join_the_same(all[j], bind));
        }
        if joined_by(before, more, bind) {
            let j = choose|j: int|
                0 <= j < before.len() + more.len() && join_the_same(
                    #[trigger] (before + more)[j],
                    bind,
                );
            assert(crate::binds::same_bind(result[j], bind));
        }
    } else {
        let init = more.drop_last();
        let last = more.last();
        let so_far = with_new_binds(before, init);
        let some = before + init;
        let n = before.len() + init.len();
        assert(all.drop_last() =~= some);
        assert(all[n as int] == last);
        assert(forall|j: int| 0 <= j < n ==> #[trigger] all[j] == some[j]);
        lemma_new_binds_join_the_same(before, init, bind);
        let known = exists|j: int|
            0 <= j < before.len() + more.len() - 1 && join_the_same(
                #[trigger] (before + more)[j],
                last,
            );
        if crate::binds::is_bound(result, bind) {
            let k = choose|k: int|
                0 <= k < result.len() && crate::binds::same_bind(#[trigger] result[k], bind);
            if k < so_far.len() {
                assert(crate::binds::same_bind(so_far[k], bind));
                assert(joined_by(before, init, bind));
                let j = choose|j: int|
                    0 <= j < before.len() + init.len() && join_the_same(
                        #[trigger] (before + init)[j],
                        bind,
                    );
                assert(join_the_same(all[j], bind));
            } else {
                assert(join_the_same(all[n as int], bind));
            }
        }
        if joined_by(before, more, bind) {
            let j = choose|j: int|
                0 <= j < before.len() + more.len() && join_the_same(
                    #[trigger] (before + more)[j],
                    bind,
                );
            if j < n {
                assert(join_the_same(some[j], bind));
            } else if known {
                let m = choose|m: int|
                    0 <= m < before.len() + more.len() - 1 && join_the_same(
                        #[trigger] (before + more)[m],
                        last,
                    );
                assert(join_the_same(some[m], bind));
            } else {
                assert(crate::binds::same_bind(result[so_far.len() as int], bind));
            }
            if j < n || known {
                assert(joined_by(before, init, bind));
                let k = choose|k: int|
                    0 <= k < so_far.len() && crate::binds::same_bind(#[trigger] so_far[k], bind);
                assert(result[k] == so_far[k]);
            }
        }
    }
}

proof fn lemma_new_binds_one_more(
    before: Seq<crate::binds::BindView>,
    more: Seq<crate::binds::BindView>,
    bind: crate::binds::BindView,
)
    ensures
        with_new_binds(before, more.push(bind)) == crate::binds::bound_once(
            with_new_binds(before, more),
            bind,
        ),
{
    let all = more.push(bind);
    assert(all.drop_last() =~= more);
    lemma_new_binds_join_the_same(before, more, bind);
    let known = exists|j: int|
        0 <= j < before.len() + all.len() - 1 && join_the_same(
            #[trigger] (before + all)[j],
            all.last(),
        );
    assert(forall|j: int|
        0 <= j < before.len() + more.len() ==> #[trigger] (before + all)[j] == (before + more)[j]);
    if known {
        let j = choose|j: int|
            0 <= j < before.len() + all.len() - 1 && join_the_same(
                #[trigger] (before + all)[j],
                all.last(),
            );
        assert(join_the_same((before + more)[j], bind));
    }
    if joined_by(before, more, bind) {
        let j = choose|j: int|
            0 <= j < before.len() + more.len() && join_the_same(
                #[trigger] (before + more)[j],
                bind,
            );
        assert(join_the_same((before + all)[j], all.last()));
    }
}

proof fn lemma_new_binds_in_two(
    before: Seq<crate::binds::BindView>,
    more: Seq<crate::binds::BindView>,
    rest: Seq<crate::binds::BindView>,
)
    ensures
        with_new_binds(with_new_binds(before, more), rest) == with_new_binds(before, more + rest),
    decreases rest.len(),
{
    let first = with_new_binds(before, more);
    if rest.len() == 0 {
        assert(more + rest =~= more);
    } else {
        let init = rest.drop_last();
        lemma_new_binds_in_two(before, more, init);
        lemma_new_binds_one_more(first, init, rest.last());
        lemma_new_binds_one_more(before, more + init, rest.last());
        assert(init.push(rest.last()) =~= rest);
        assert((more + init).push(rest.last()) =~= more + rest);
    }
}

/// The nodes of a device are gone through in order, up to the first that is wrong: for those before
/// it the binds that join paths which no bind before joins are added at the end, and then it is told
/// what is wrong, if anything is.
pub proof fn law_nodes_are_gone_through_in_order(
    device: Seq<char>,
    spec_path: Seq<u8>,
    nodes: Seq<crate::spec_file::NodeView>,
    present: Seq<Seq<u8>>,
    before: Seq<crate::binds::BindView>,
    k: int,
)
    requires
        is_first_wrong(needs_of(device, spec_path, nodes), present, k),
    ensures
        ({
            let needs = needs_of(device, spec_path, nodes);
            let after = crate::binds::appended(device, spec_path, nodes, present, before);
            &&& after.binds == with_new_binds(before, binds_of(needs.take(k)))
            &&& after.problem == if k < needs.len() {
                told_of(needs[k], present)
            } else {
                None
            }
        }),
    decreases nodes.len(),
{
    let needs = needs_of(device, spec_path, nodes);
    if nodes.len() == 0 {
        assert(binds_of(needs.take(k)).len() == 0);
    } else {
        let init = nodes.drop_last();
        let few = needs_of(device, spec_path, init);
        let last = nodes.last();
        assert(few =~= needs.drop_last());
        assert(needs[needs.len() - 1] == (Need { device, spec_path, node: last }));
        law_what_is_told_of_nodes(device, spec_path, last, present);
        assert forall|i: int| 0 <= i < few.len() implies #[trigger] few[i] == needs[i] by {}
        if k < few.len() {
            assert(few[k] == needs[k]);
            law_nodes_are_gone_through_in_order(device, spec_path, init, present, before, k);
            assert(few.take(k) =~= needs.take(k));
        } else {
            law_nodes_are_gone_through_in_order(
                device,
                spec_path,
                init,
                present,
                before,
                few.len() as int,
            );
            assert(few.take(few.len() as int) =~= few);
            if k == few.len() {
                assert(needs.take(k) =~= few);
            } else {
                assert(told_of(needs[needs.len() - 1], present) is None);
                law_binds_of_nodes(last);
                assert(needs.take(k) =~= needs);
                assert(binds_of(needs) =~= binds_of(few).push(crate::binds::node_bind(last)));
                lemma_new_binds_one_more(before, binds_of(few), crate::binds::node_bind(last));
            }
        }
    }
}

proof fn lemma_first_wrong_exists(needs: Seq<Need>, present: Seq<Seq<u8>>) -> (k: int)
    ensures
        is_first_wrong(needs, present, k),
    decreases needs.len(),
{
    if needs.len() == 0 {
        0
    } else {
        let init = needs.drop_last();
        let k = lemma_first_wrong_exists(init, present);
        assert forall|i: int| 0 <= i < k implies told_of(#[trigger] needs[i], present) is None by {
            assert(init[i] == needs[i]);
        }
        if k < init.len() {
            assert(needs[k] == init[k]);
            k
        } else if told_of(needs.last(), present) is Some {
            k
        } else {
            k + 1
        }
    }
}

proof fn lemma_first_wrong_in_two(a: Seq<Need>, b: Seq<Need>, present: Seq<Seq<u8>>, k: int)
    requires
        is_first_wrong(a + b, present, k),
    ensures
        k < a.len() ==> is_first_wrong(a, present, k),
        k >= a.len() ==> is_first_wrong(a, present, a.len() as int) && is_first_wrong(
            b,
            present,
            k - a.len(),
        ),
{
    let both = a + b;
    assert forall|i: int| 0 <= i < k && i < a.len() implies told_of(
        #[trigger] a[i],
        present,
    ) is None by {
        assert(both[i] == a[i]);
    }
    if k >= a.len() {
        assert forall|i: int| 0 <= i < k - a.len() implies told_of(
            #[trigger] b[i],
            present,
        ) is None by {
            assert(both[a.len() + i] == b[i]);
        }
    }
}

/// The devices are gone through in order, each with the nodes that its specification wants for all
/// its devices, unless a device before it is of the same file, and then with its own nodes. What is
/// wrong with the first wrong node is told; where none is wrong, the result are the binds of all
/// those nodes, in order, without those that join paths which one before them joins.
pub proof fn law_devices_are_gone_through_in_order(
    selected: Seq<crate::binds::SelectedView>,
    present: Seq<Seq<u8>>,
    k: int,
)
    requires
        is_first_wrong(all_needs(selected), present, k),
    ensures
        match crate::binds::required_binds(selected, present) {
            Ok(binds) => k == all_needs(selected).len() && binds == with_new_binds(
                seq![],
                binds_of(all_needs(selected)),
            ),
            Err(problem) => k < all_needs(selected).len() && told_of(all_needs(selected)[k], present)
                == Some(problem),
        },
    decreases selected.len(),
{
    let none: Seq<crate::binds::BindView> = seq![];
    let needs = all_needs(selected);
    if selected.len() > 0 {
        let init = selected.drop_last();
        let last = selected.last();
        let device = last.device;
        let earlier = all_needs(init);
        let known = file_is_known(init, device.spec_path);
        assert(known <==> crate::binds::has_device_of(init, device.spec_path)) by {
            if known {
                let j = choose|j: int|
                    0 <= j < init.len() && crate::path::components(
                        (#[trigger] init[j]).device.spec_path,
                    ) == crate::path::components(device.spec_path);
                assert(crate::path::same_path(init[j].device.spec_path, device.spec_path));
            }
        }
        let of_all = needs_of(last.name, device.spec_path, device.global_device_nodes);
        let shared = if known {
            Seq::<Need>::empty()
        } else {
            of_all
        };
        let own = needs_of(last.name, device.spec_path, device.device_nodes);
        assert(needs == earlier + shared + own);
        lemma_first_wrong_in_two(earlier + shared, own, present, k);
        if k < (earlier + shared).len() {
            lemma_first_wrong_in_two(earlier, shared, present, k);
            assert((earlier + shared)[k] == needs[k]);
        } else {
            lemma_first_wrong_in_two(earlier, shared, present, (earlier + shared).len() as int);
        }
        if k < earlier.len() {
            law_devices_are_gone_through_in_order(init, present, k);
            assert(needs[k] == earlier[k]);
        } else {
            law_devices_are_gone_through_in_order(init, present, earlier.len() as int);
            let before = with_new_binds(none, binds_of(earlier));
            let m = k - earlier.len();
            if m < shared.len() {
                law_nodes_are_gone_through_in_order(
                    last.name,
                    device.spec_path,
                    device.global_device_nodes,
                    present,
                    before,
                    m,
                );
                assert(needs[k] == shared[m]);
            } else {
                if !known {
                    law_nodes_are_gone_through_in_order(
                        last.name,
                        device.spec_path,
                        device.global_device_nodes,
                        present,
                        before,
                        shared.len() as int,
                    );
                    assert(of_all.take(of_all.len() as int) =~= of_all);
                }
                let between = with_new_binds(before, binds_of(shared));
                assert(known ==> binds_of(shared).len() == 0);
                law_nodes_are_gone_through_in_order(
                    last.name,
                    device.spec_path,
                    device.device_nodes,
                    present,
                    between,
                    m - shared.len(),
                );
                if m < shared.len() + own.len() {
                    assert(needs[k] == own[m - shared.len()]);
                } else {
                    assert(own.take(own.len() as int) =~= own);
                    lemma_new_binds_in_two(none, binds_of(earlier), binds_of(shared));
                    lemma_new_binds_in_two(
                        none,
                        binds_of(earlier) + binds_of(shared),
                        binds_of(own),
                    );
                    assert(binds_of(needs) =~= binds_of(earlier) + binds_of(shared) + binds_of(
                        own,
                    ));
                }
            }
        }
    } else {
        assert(binds_of(needs).len() == 0);
    }
}

/// Devices resolve where no node that they ask for is wrong, and only there.
pub proof fn law_devices_resolve_where_no_node_is_wrong(
    selected: Seq<crate::binds::SelectedView>,
    present: Seq<Seq<u8>>,
)
    ensures
        crate::binds::required_binds(selected, present) is Ok <==> forall|i: int|
            0 <= i < all_needs(selected).len() ==> told_of(
                #[trigger] all_needs(selected)[i],
                present,
            ) is None,
{
    let k = lemma_first_wrong_exists(all_needs(selected), present);
    law_devices_are_gone_through_in_order(selected, present, k);
}

/// The nodes of the host that are asked about are the sources that begin with a slash, of the nodes
/// that specifications want for all their devices and of the devices' own, device by device.
pub proof fn law_nodes_that_are_asked_about(
    selected: Seq<crate::binds::SelectedView>,
    added: crate::binds::SelectedView,
    nodes: Seq<crate::spec_file::NodeView>,
    node: crate::spec_file::NodeView,
)
    ensures
        crate::binds::candidates(seq![]).len() == 0,
        crate::binds::candidates(selected.push(added)) == crate::binds::candidates(selected)
            + crate::binds::node_sources(added.device.global_device_nodes)
            + crate::binds::node_sources(added.device.device_nodes),
        crate::binds::node_sources(seq![]).len() == 0,
        crate::binds::node_sources(nodes.push(node)) == if begins_with_slash(written_source(node)) {
            crate::binds::node_sources(nodes).push(
                vstd::utf8::encode_utf8(written_source(node)),
            )
        } else {
            crate::binds::node_sources(nodes)
        },
{
    assert(selected.push(added).drop_last() =~= selected);
    assert(nodes.push(node).drop_last() =~= nodes);
    law_binds_of_nodes(node);
    crate::path_laws::law_paths_are_written_in_utf8(written_source(node), seq![]);
    crate::laws::law_written_paths_are_absolute_behind_a_slash(written_source(node));
}

} // verus!

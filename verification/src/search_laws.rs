//! What holds of the search for specification files, and of what a directory says after it.

use crate::listing::{DirEntry, Found, IoFailure, SpecFile};
use crate::sorting::Located;
use vstd::prelude::*;

verus! {

/// What the search had met before stays at the front of what it has met, and decides nothing.
proof fn lemma_at_adds(entry: DirEntry, before: Seq<SpecFile>)
    ensures
        crate::listing::collected_at(entry, before).files == before
            + crate::listing::collected_at(entry, seq![]).files,
        crate::listing::collected_at(entry, before).failure == crate::listing::collected_at(
            entry,
            seq![],
        ).failure,
    decreases crate::listing::entry_size(entry), 1nat,
{
    let none: Seq<SpecFile> = seq![];
    assert(before + none =~= before);
    match entry.found {
        Found::Directory(Ok(entries)) => {
            crate::listing::lemma_sorted_size(entries@);
            lemma_along_adds(crate::sorting::sorted_by_path(entries@), before);
        },
        Found::File(contents) => {
            let file = SpecFile { path: entry.path, contents };
            assert(before + none.push(file) =~= before.push(file));
        },
        _ => {},
    }
}

proof fn lemma_along_adds(entries: Seq<DirEntry>, before: Seq<SpecFile>)
    ensures
        crate::listing::collected_along(entries, before).files == before
            + crate::listing::collected_along(entries, seq![]).files,
        crate::listing::collected_along(entries, before).failure
            == crate::listing::collected_along(entries, seq![]).failure,
    decreases crate::listing::entries_size(entries), 2nat,
{
    let none: Seq<SpecFile> = seq![];
    assert(before + none =~= before);
    if entries.len() > 0 {
        let init = entries.drop_last();
        let last = entries.last();
        assert(crate::listing::entry_size(last) >= 1);
        lemma_along_adds(init, before);
        let met = crate::listing::collected_along(init, none).files;
        lemma_at_adds(last, before + met);
        lemma_at_adds(last, met);
        let added = crate::listing::collected_at(last, none).files;
        assert(before + met + added =~= before + (met + added));
    }
}

/// What the search finds along entries is what it finds along all but the last, and then at it.
proof fn lemma_along_last(entries: Seq<DirEntry>)
    requires
        entries.len() > 0,
        crate::listing::collected_along(entries.drop_last(), seq![]).failure is None,
    ensures
        crate::listing::collected_along(entries, seq![]).files
            == crate::listing::collected_along(entries.drop_last(), seq![]).files
            + crate::listing::collected_at(entries.last(), seq![]).files,
        crate::listing::collected_along(entries, seq![]).failure
            == crate::listing::collected_at(entries.last(), seq![]).failure,
{
    lemma_at_adds(
        entries.last(),
        crate::listing::collected_along(entries.drop_last(), seq![]).files,
    );
}

/// The second search fails as the first does, and where they do not fail it meets `file` too, at
/// `place`.
pub open spec fn meets_one_more(
    fewer: crate::listing::Collected,
    more: crate::listing::Collected,
    file: SpecFile,
    place: int,
) -> bool {
    &&& more.failure == fewer.failure
    &&& fewer.failure is None ==> 0 <= place <= fewer.files.len() && more.files
        == fewer.files.insert(place, file)
}

proof fn lemma_along_with_one_more(
    entries: Seq<DirEntry>,
    i: int,
    entry: DirEntry,
    file: SpecFile,
) -> (place: int)
    requires
        0 <= i <= entries.len(),
        crate::listing::collected_at(entry, seq![]) == (crate::listing::Collected {
            files: seq![file],
            failure: None,
        }),
    ensures
        meets_one_more(
            crate::listing::collected_along(entries, seq![]),
            crate::listing::collected_along(entries.insert(i, entry), seq![]),
            file,
            place,
        ),
    decreases entries.len(),
{
    let none: Seq<SpecFile> = seq![];
    let more = entries.insert(i, entry);
    let met = crate::listing::collected_along(entries, none);
    if i == entries.len() {
        assert(more.drop_last() =~= entries);
        assert(more.last() == entry);
        if met.failure is None {
            lemma_along_last(more);
            assert(met.files + seq![file] =~= met.files.insert(met.files.len() as int, file));
        }
        met.files.len() as int
    } else {
        let init = entries.drop_last();
        let before = crate::listing::collected_along(init, none);
        assert(more.drop_last() =~= init.insert(i, entry));
        assert(more.last() == entries.last());
        let place = lemma_along_with_one_more(init, i, entry, file);
        if before.failure is None {
            lemma_along_last(entries);
            lemma_along_last(more);
            let added = crate::listing::collected_at(entries.last(), none).files;
            assert(before.files.insert(place, file) + added =~= (before.files + added).insert(
                place,
                file,
            ));
        }
        place
    }
}

proof fn lemma_along_with_one_replaced(
    entries: Seq<DirEntry>,
    i: int,
    entry: DirEntry,
    file: SpecFile,
    inner: int,
) -> (place: int)
    requires
        0 <= i < entries.len(),
        meets_one_more(
            crate::listing::collected_at(entries[i], seq![]),
            crate::listing::collected_at(entry, seq![]),
            file,
            inner,
        ),
    ensures
        meets_one_more(
            crate::listing::collected_along(entries, seq![]),
            crate::listing::collected_along(entries.update(i, entry), seq![]),
            file,
            place,
        ),
    decreases entries.len(),
{
    let none: Seq<SpecFile> = seq![];
    let changed = entries.update(i, entry);
    let init = entries.drop_last();
    let before = crate::listing::collected_along(init, none);
    let added = crate::listing::collected_at(entries.last(), none);
    if i == entries.len() - 1 {
        assert(changed.drop_last() =~= init);
        assert(changed.last() == entry);
        if before.failure is None {
            lemma_along_last(entries);
            lemma_along_last(changed);
            if added.failure is None {
                assert(before.files + added.files.insert(inner, file) =~= (before.files
                    + added.files).insert(before.files.len() + inner, file));
            }
        }
        before.files.len() + inner
    } else {
        assert(changed.drop_last() =~= init.update(i, entry));
        assert(changed.last() == entries.last());
        let place = lemma_along_with_one_replaced(init, i, entry, file, inner);
        if before.failure is None {
            lemma_along_last(entries);
            lemma_along_last(changed);
            assert(before.files.insert(place, file) + added.files =~= (before.files
                + added.files).insert(place, file));
        }
        place
    }
}

/// `more` are `entries` with one more file, `file`, in them or below them. `place` leads to it: the
/// numbers of the directories on the way, from the outermost inwards, and behind them the number
/// that the file has in the innermost one. Everything else is as it was, in the order in which it
/// was.
pub open spec fn adds_file(
    entries: Seq<DirEntry>,
    more: Seq<DirEntry>,
    file: SpecFile,
    place: Seq<int>,
) -> bool
    decreases place.len(),
{
    if place.len() == 0 {
        false
    } else if place.len() == 1 {
        &&& 0 <= place[0] <= entries.len()
        &&& more == entries.insert(
            place[0],
            DirEntry { path: file.path, found: Found::File(file.contents) },
        )
    } else {
        &&& 0 <= place[0] < entries.len()
        &&& more == entries.update(place[0], more[place[0]])
        &&& more[place[0]].path == entries[place[0]].path
        &&& match (entries[place[0]].found, more[place[0]].found) {
            (Found::Directory(Ok(inner)), Found::Directory(Ok(inner_more))) => adds_file(
                inner@,
                inner_more@,
                file,
                place.drop_first(),
            ),
            _ => false,
        }
    }
}

proof fn lemma_search_with_one_more(
    entries: Seq<DirEntry>,
    more: Seq<DirEntry>,
    file: SpecFile,
    place: Seq<int>,
) -> (met_at: int)
    requires
        adds_file(entries, more, file, place),
        crate::listing::is_spec_file_path(file.path@),
    ensures
        meets_one_more(
            crate::listing::collected_along(crate::sorting::sorted_by_path(entries), seq![]),
            crate::listing::collected_along(crate::sorting::sorted_by_path(more), seq![]),
            file,
            met_at,
        ),
    decreases place.len(),
{
    let i = place[0];
    let sorted = crate::sorting::sorted_by_path(entries);
    if place.len() == 1 {
        let entry = DirEntry { path: file.path, found: Found::File(file.contents) };
        let k = crate::sorting::lemma_sorted_with_one_more(entries, i, entry);
        assert(Seq::<SpecFile>::empty().push(file) =~= seq![file]);
        lemma_along_with_one_more(sorted, k, entry, file)
    } else {
        let entry = more[i];
        let k = crate::sorting::lemma_sorted_with_one_replaced(entries, i, entry);
        let inner = entries[i].found->Directory_0->Ok_0;
        let inner_more = entry.found->Directory_0->Ok_0;
        let met_at = lemma_search_with_one_more(inner@, inner_more@, file, place.drop_first());
        lemma_along_with_one_replaced(sorted, k, entry, file, met_at)
    }
}

proof fn lemma_no_failure_along(entries: Seq<DirEntry>)
    requires
        forall|j: int|
            0 <= j < entries.len() ==> !crate::listing::entry_fails(#[trigger] entries[j]),
    ensures
        !crate::listing::entries_fail(entries),
    decreases entries.len(),
{
    if entries.len() > 0 {
        let init = entries.drop_last();
        assert forall|j: int| 0 <= j < init.len() implies !crate::listing::entry_fails(
            #[trigger] init[j],
        ) by {
            assert(init[j] == entries[j]);
        }
        lemma_no_failure_along(init);
        assert(!crate::listing::entry_fails(entries[entries.len() - 1]));
    }
}

/// A search that fails does so for the reason of the first entry, in the order of paths, at or below
/// which the file system failed; for a directory that is the reason for which its own search fails.
pub proof fn law_first_failure_decides(entries: Vec<DirEntry>, k: int)
    requires
        0 <= k < crate::sorting::sorted_by_path(entries@).len(),
        forall|j: int|
            0 <= j < k ==> !crate::listing::entry_fails(
                #[trigger] crate::sorting::sorted_by_path(entries@)[j],
            ),
        crate::listing::entry_fails(crate::sorting::sorted_by_path(entries@)[k]),
    ensures
        match crate::sorting::sorted_by_path(entries@)[k].found {
            Found::Failed(failure) => crate::listing::found_spec_files(Ok(entries)) == Err::<
                Seq<SpecFile>,
                IoFailure,
            >(failure),
            Found::Directory(listing) => crate::listing::found_spec_files(listing) is Err
                && crate::listing::found_spec_files(Ok(entries))
                == crate::listing::found_spec_files(listing),
            _ => false,
        },
{
    let none: Seq<SpecFile> = seq![];
    let sorted = crate::sorting::sorted_by_path(entries@);
    let before = sorted.take(k);
    let upto = sorted.take(k + 1);
    assert forall|j: int| 0 <= j < before.len() implies !crate::listing::entry_fails(
        #[trigger] before[j],
    ) by {
        assert(before[j] == sorted[j]);
    }
    lemma_no_failure_along(before);
    crate::listing::lemma_collected_along(before, none);
    assert(upto.drop_last() =~= before);
    assert(upto.last() == sorted[k]);
    lemma_along_last(upto);
    let here = crate::listing::collected_at(sorted[k], none);
    if let Found::Directory(listing) = sorted[k].found {
        crate::listing::law_search_is_exhaustive(listing);
        assert(here == crate::listing::collected_below(listing, none));
    }
    assert(here.failure is Some);
    crate::listing::lemma_failure_stays(sorted, none, k + 1);
}

/// One more specification file, in a directory or anywhere below it, is found in its place among
/// the others, which are found as before. A search that failed fails as before.
pub proof fn law_one_more_file_is_found(
    entries: Vec<DirEntry>,
    more: Vec<DirEntry>,
    file: SpecFile,
    place: Seq<int>,
) -> (k: int)
    requires
        adds_file(entries@, more@, file, place),
        crate::listing::is_spec_file_path(file.path@),
    ensures
        match crate::listing::found_spec_files(Ok(entries)) {
            Ok(files) => 0 <= k <= files.len() && crate::listing::found_spec_files(Ok(more)) == Ok::<
                Seq<SpecFile>,
                IoFailure,
            >(files.insert(k, file)),
            Err(failure) => crate::listing::found_spec_files(Ok(more)) == Err::<
                Seq<SpecFile>,
                IoFailure,
            >(failure),
        },
{
    let met_at = lemma_search_with_one_more(entries@, more@, file, place);
    let met = crate::listing::collected_below(Ok(entries), seq![]);
    if met.failure is None {
        crate::sorting::lemma_sorted_with_one_more(met.files, met_at, file)
    } else {
        0
    }
}

/// Files are reported one after the other, whatever stands around them.
pub proof fn lemma_errors_of_both(before: Seq<SpecFile>, after: Seq<SpecFile>)
    ensures
        crate::scan::file_errors(before + after) == crate::scan::file_errors(before)
            + crate::scan::file_errors(after),
    decreases after.len(),
{
    if after.len() == 0 {
        assert(before + after =~= before);
        assert(crate::scan::file_errors(before) + crate::scan::file_errors(after)
            =~= crate::scan::file_errors(before));
    } else {
        lemma_errors_of_both(before, after.drop_last());
        assert((before + after).drop_last() =~= before + after.drop_last());
        assert(crate::scan::file_errors(before + after) =~= crate::scan::file_errors(before)
            + crate::scan::file_errors(after));
    }
}

/// One more file that holds no specification, in a directory or anywhere below it, changes nothing
/// of what the directory says of devices. Where the directory can be read, the file is reported
/// once, by its path and what is wrong with it, among the reports that there were before; else
/// nothing changes.
pub proof fn law_one_more_malformed_file_is_reported(
    spec_dir: Seq<u8>,
    entries: Vec<DirEntry>,
    more: Vec<DirEntry>,
    file: SpecFile,
    place: Seq<int>,
) -> (k: int)
    requires
        adds_file(entries@, more@, file, place),
        crate::listing::is_spec_file_path(file.path@),
        crate::spec_file::parsed_spec(file.path@, file.contents.deep_view()) is Err,
    ensures
        crate::scan::scanned(spec_dir, Ok(more)).entries == crate::scan::scanned(
            spec_dir,
            Ok(entries),
        ).entries,
        ({
            let errors = crate::scan::scanned(spec_dir, Ok(entries)).scan_errors;
            let errors_with = crate::scan::scanned(spec_dir, Ok(more)).scan_errors;
            if crate::listing::found_spec_files(Ok(entries)) is Ok {
                0 <= k <= errors.len() && errors_with == errors.insert(
                    k,
                    crate::path::path_text(file.path@) + ": "@ + crate::spec_file::parsed_spec(
                        file.path@,
                        file.contents.deep_view(),
                    )->Err_0,
                )
            } else {
                errors_with == errors
            }
        }),
{
    let n = law_one_more_file_is_found(entries, more, file, place);
    if let Ok(files) = crate::listing::found_spec_files(Ok(entries)) {
        let before = files.take(n);
        let after = files.skip(n);
        let problem = crate::path::path_text(file.path@) + ": "@ + crate::spec_file::parsed_spec(
            file.path@,
            file.contents.deep_view(),
        )->Err_0;
        assert(files =~= before + after);
        assert(files.insert(n, file) =~= before.push(file) + after);
        crate::laws::law_malformed_files_are_ignored(before, file, after);
        lemma_errors_of_both(before, after);
        let k = crate::scan::file_errors(before).len() as int;
        assert(crate::scan::file_errors(files).insert(k, problem) =~= crate::scan::file_errors(
            before,
        ).push(problem) + crate::scan::file_errors(after));
        k
    } else {
        0
    }
}

/// Where no two specification files have the same path, it does not matter in what order
/// directories list their entries: two listings with the same specification files in and below
/// them, neither with a failure, are searched to the same end.
pub proof fn law_order_of_listing_does_not_matter(entries: Vec<DirEntry>, reordered: Vec<DirEntry>)
    requires
        !crate::listing::entries_fail(entries@),
        !crate::listing::entries_fail(reordered@),
        crate::listing::entries_files(entries@) == crate::listing::entries_files(reordered@),
        crate::listing::found_spec_files(Ok(entries)) matches Ok(files)
            && crate::sorting::paths_are_distinct(files),
    ensures
        crate::listing::found_spec_files(Ok(entries)) == crate::listing::found_spec_files(
            Ok(reordered),
        ),
{
    crate::listing::law_search_is_exhaustive(Ok(entries));
    crate::listing::law_search_is_exhaustive(Ok(reordered));
    let files = crate::listing::found_spec_files(Ok(entries))->Ok_0;
    let other = crate::listing::found_spec_files(Ok(reordered))->Ok_0;
    crate::sorting::lemma_distinct_paths_reordered(files, other);
    crate::sorting::lemma_strict_order_is_unique(files, other);
}

/// `path` is `dir` and one component more.
pub open spec fn is_directly_below(dir: Seq<u8>, path: Seq<u8>) -> bool {
    &&& crate::path::components(path).len() > 0
    &&& crate::path::components(path).drop_last() == crate::path::components(dir)
}

/// The entry stands directly below `dir`, and what is below it stands where it should.
pub open spec fn entry_is_placed(dir: Seq<u8>, entry: DirEntry) -> bool
    decreases entry,
{
    &&& is_directly_below(dir, entry.path@)
    &&& match entry.found {
        Found::Directory(Ok(entries)) => entries_are_placed(entry.path@, entries@),
        _ => true,
    }
}

/// The entries stand directly below `dir`, no two at the same path, and what is below them stands
/// where it should.
pub open spec fn entries_are_placed(dir: Seq<u8>, entries: Seq<DirEntry>) -> bool
    decreases entries,
{
    &&& crate::sorting::paths_are_distinct(entries)
    &&& forall|i: int| 0 <= i < entries.len() ==> entry_is_placed(dir, #[trigger] entries[i])
}

/// The components of `path` begin with those of `dir`.
spec fn is_under(dir: Seq<u8>, path: Seq<u8>) -> bool {
    &&& crate::path::components(dir).len() <= crate::path::components(path).len()
    &&& crate::path::components(path).take(crate::path::components(dir).len() as int)
        == crate::path::components(dir)
}

proof fn lemma_lex_behind_prefix<A>(
    prefix: Seq<A>,
    a: Seq<A>,
    b: Seq<A>,
    less: spec_fn(A, A) -> bool,
)
    ensures
        crate::path::lex_less(prefix + a, prefix + b, less) == crate::path::lex_less(a, b, less),
    decreases prefix.len(),
{
    if prefix.len() == 0 {
        assert(prefix + a =~= a);
        assert(prefix + b =~= b);
    } else {
        lemma_lex_behind_prefix(prefix.drop_first(), a, b, less);
        assert((prefix + a).drop_first() =~= prefix.drop_first() + a);
        assert((prefix + b).drop_first() =~= prefix.drop_first() + b);
    }
}

/// What is under the earlier of two neighbours comes before what is under the later.
proof fn lemma_under_neighbours(dir: Seq<u8>, a: Seq<u8>, b: Seq<u8>, x: Seq<u8>, y: Seq<u8>)
    requires
        is_directly_below(dir, a),
        is_directly_below(dir, b),
        crate::path::path_less(a, b),
        is_under(a, x),
        is_under(b, y),
    ensures
        crate::path::path_less(x, y),
{
    let less = crate::path::component_order();
    let prefix = crate::path::components(dir);
    let n = prefix.len() as int;
    let ca = crate::path::components(a);
    let cb = crate::path::components(b);
    let cx = crate::path::components(x);
    let cy = crate::path::components(y);
    let sa = seq![ca.last()];
    let sb = seq![cb.last()];
    assert(ca =~= prefix + sa);
    assert(cb =~= prefix + sb);
    lemma_lex_behind_prefix(prefix, sa, sb, less);
    if ca.last() == cb.last() {
        assert(sa.drop_first() =~= sb.drop_first());
        assert(!crate::path::lex_less(sa.drop_first(), sb.drop_first(), less));
    }
    assert(less(ca.last(), cb.last()));
    assert(cx.take(n + 1)[n] == ca.last());
    assert(cy.take(n + 1)[n] == cb.last());
    assert(cx =~= prefix + cx.skip(n)) by {
        assert(forall|i: int| 0 <= i < n ==> cx[i] == cx.take(n + 1)[i]);
    }
    assert(cy =~= prefix + cy.skip(n)) by {
        assert(forall|i: int| 0 <= i < n ==> cy[i] == cy.take(n + 1)[i]);
    }
    lemma_lex_behind_prefix(prefix, cx.skip(n), cy.skip(n), less);
}

proof fn lemma_placed_at(dir: Seq<u8>, entry: DirEntry)
    requires
        entry_is_placed(dir, entry),
    ensures
        ({
            let files = crate::listing::collected_at(entry, seq![]).files;
            &&& crate::sorting::is_strictly_sorted_by_path(files)
            &&& forall|i: int|
                0 <= i < files.len() ==> is_under(entry.path@, (#[trigger] files[i]).path@)
        }),
    decreases crate::listing::entry_size(entry), 1nat,
{
    let files = crate::listing::collected_at(entry, seq![]).files;
    match entry.found {
        Found::Directory(Ok(entries)) => {
            let path = entry.path@;
            let n = crate::path::components(path).len() as int;
            lemma_placed_below(path, entries@);
            assert forall|i: int| 0 <= i < files.len() implies is_under(
                path,
                (#[trigger] files[i]).path@,
            ) by {
                let above = choose|above: Seq<u8>|
                    is_directly_below(path, above) && is_under(above, files[i].path@);
                let parts = crate::path::components(files[i].path@);
                assert(parts.take(n) =~= parts.take(n + 1).drop_last());
            }
        },
        Found::File(_) => {
            let parts = crate::path::components(entry.path@);
            assert(parts.take(parts.len() as int) =~= parts);
        },
        _ => {},
    }
}

proof fn lemma_placed_along(dir: Seq<u8>, entries: Seq<DirEntry>)
    requires
        crate::sorting::is_strictly_sorted_by_path(entries),
        forall|i: int| 0 <= i < entries.len() ==> entry_is_placed(dir, #[trigger] entries[i]),
    ensures
        ({
            let files = crate::listing::collected_along(entries, seq![]).files;
            &&& crate::sorting::is_strictly_sorted_by_path(files)
            &&& forall|i: int|
                0 <= i < files.len() ==> exists|m: int|
                    0 <= m < entries.len() && is_under(
                        (#[trigger] entries[m]).path@,
                        (#[trigger] files[i]).path@,
                    )
        }),
    decreases crate::listing::entries_size(entries), 2nat,
{
    let files = crate::listing::collected_along(entries, seq![]).files;
    if entries.len() > 0 {
        let init = entries.drop_last();
        let last = entries.last();
        let so_far = crate::listing::collected_along(init, seq![]);
        assert(crate::listing::entry_size(last) >= 1);
        assert(entries[entries.len() - 1] == last);
        assert forall|i: int| 0 <= i < init.len() implies entry_is_placed(
            dir,
            #[trigger] init[i],
        ) by {
            assert(init[i] == entries[i]);
        }
        lemma_placed_along(dir, init);
        lemma_placed_at(dir, last);
        let n = so_far.files.len() as int;
        if so_far.failure is None {
            lemma_along_last(entries);
        }
        assert forall|i: int| 0 <= i < files.len() implies exists|m: int|
            0 <= m < entries.len() && is_under(
                (#[trigger] entries[m]).path@,
                (#[trigger] files[i]).path@,
            ) by {
            if i < n {
                assert(files[i] == so_far.files[i]);
                let m = choose|m: int|
                    0 <= m < init.len() && is_under(
                        (#[trigger] init[m]).path@,
                        so_far.files[i].path@,
                    );
                assert(is_under(entries[m].path@, files[i].path@));
            } else {
                assert(files[i] == crate::listing::collected_at(last, seq![]).files[i - n]);
                assert(is_under(entries[entries.len() - 1].path@, files[i].path@));
            }
        }
        assert forall|i: int, j: int| 0 <= i < j < files.len() implies crate::path::path_less(
            (#[trigger] files[i]).location(),
            (#[trigger] files[j]).location(),
        ) by {
            if j < n {
                assert(files[i] == so_far.files[i]);
                assert(files[j] == so_far.files[j]);
            } else {
                let added = crate::listing::collected_at(last, seq![]).files;
                assert(files[j] == added[j - n]);
                if i < n {
                    assert(files[i] == so_far.files[i]);
                    let m = choose|m: int|
                        0 <= m < init.len() && is_under(
                            (#[trigger] init[m]).path@,
                            so_far.files[i].path@,
                        );
                    assert(init[m] == entries[m]);
                    assert(crate::path::path_less(
                        entries[m].location(),
                        entries[entries.len() - 1].location(),
                    ));
                    lemma_under_neighbours(
                        dir,
                        entries[m].path@,
                        last.path@,
                        files[i].path@,
                        files[j].path@,
                    );
                } else {
                    assert(files[i] == added[i - n]);
                }
            }
        }
    }
}

proof fn lemma_placed_below(dir: Seq<u8>, entries: Seq<DirEntry>)
    requires
        entries_are_placed(dir, entries),
    ensures
        ({
            let files = crate::listing::collected_along(
                crate::sorting::sorted_by_path(entries),
                seq![],
            ).files;
            &&& crate::sorting::is_strictly_sorted_by_path(files)
            &&& forall|i: int|
                0 <= i < files.len() ==> exists|above: Seq<u8>|
                    is_directly_below(dir, above) && is_under(above, (#[trigger] files[i]).path@)
        }),
    decreases crate::listing::entries_size(entries), 3nat,
{
    let sorted = crate::sorting::sorted_by_path(entries);
    let files = crate::listing::collected_along(sorted, seq![]).files;
    crate::listing::lemma_sorted_size(entries);
    crate::sorting::law_sorting_is_stable(entries, seq![]);
    crate::sorting::lemma_distinct_paths_reordered(entries, sorted);
    crate::sorting::lemma_distinct_paths_sort_strictly(sorted);
    entries.to_multiset_ensures();
    sorted.to_multiset_ensures();
    assert forall|i: int| 0 <= i < sorted.len() implies entry_is_placed(
        dir,
        #[trigger] sorted[i],
    ) by {
        assert(sorted.contains(sorted[i]));
        assert(entries.to_multiset().count(sorted[i]) > 0);
        assert(entries.contains(sorted[i]));
    }
    lemma_placed_along(dir, sorted);
    assert forall|i: int| 0 <= i < files.len() implies exists|above: Seq<u8>|
        is_directly_below(dir, above) && is_under(above, (#[trigger] files[i]).path@) by {
        let m = choose|m: int|
            0 <= m < sorted.len() && is_under((#[trigger] sorted[m]).path@, files[i].path@);
        assert(entry_is_placed(dir, sorted[m]));
        assert(is_directly_below(dir, sorted[m].path@));
    }
}

/// Where the paths of entries extend that of their directory by one component, no two in the same
/// way, the search meets the specification files in the strict order of their paths, and so leaves
/// nothing to be sorted at its end.
pub proof fn law_files_are_met_in_order(dir: Seq<u8>, entries: Vec<DirEntry>)
    requires
        entries_are_placed(dir, entries@),
    ensures
        crate::sorting::is_strictly_sorted_by_path(
            crate::listing::collected_below(Ok(entries), seq![]).files,
        ),
        crate::listing::found_spec_files(Ok(entries)) matches Ok(files) ==> files
            == crate::listing::collected_below(Ok(entries), seq![]).files,
{
    lemma_placed_below(dir, entries@);
    let met = crate::listing::collected_below(Ok(entries), seq![]).files;
    let sorted = crate::sorting::sorted_by_path(met);
    crate::sorting::law_sorting_is_stable(met, seq![]);
    assert forall|i: int, j: int| 0 <= i < j < met.len() implies !crate::path::same_path(
        (#[trigger] met[i]).location(),
        (#[trigger] met[j]).location(),
    ) by {
        crate::sorting::law_paths_are_ordered(
            met[i].location(),
            met[j].location(),
            met[i].location(),
        );
    }
    crate::sorting::lemma_distinct_paths_reordered(met, sorted);
    crate::sorting::lemma_distinct_paths_sort_strictly(sorted);
    crate::sorting::lemma_strict_order_is_unique(met, sorted);
}

} // verus!

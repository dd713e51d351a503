//! Which files of a specification directory hold specifications, and in what order.

use crate::path::HostPath;
use crate::sorting::{sort_by_path, Located};
use crate::spec_file::SpecFileContents;
use vstd::multiset::Multiset;
use vstd::prelude::*;

verus! {

/// Why the file system did not answer.
#[derive(Debug)]
pub struct IoFailure {
    /// The file or directory does not exist.
    pub not_found: bool,
    pub reason: String,
}

/// What the file system says an entry of a directory is. Links are not followed.
#[derive(Debug)]
pub enum FileType {
    Directory,
    File,
    Other,
}

/// What is to be done about an entry of a directory.
#[derive(Debug)]
pub enum EntryAction {
    ListDirectory,
    ReadSpecFile,
    Skip,
}

/// What was found at an entry of a directory.
#[derive(Debug)]
pub enum Found {
    /// A directory, and what listing it gave.
    Directory(Result<Vec<DirEntry>, IoFailure>),
    /// A file, and what reading it as a specification gave.
    File(SpecFileContents),
    /// Something that was not looked at.
    Skipped,
    /// The file system did not say what the entry is.
    Failed(IoFailure),
}

/// An entry of a directory.
#[derive(Debug)]
pub struct DirEntry {
    pub path: HostPath,
    pub found: Found,
}

/// A specification file and what reading it gave.
#[derive(Debug)]
pub struct SpecFile {
    pub path: HostPath,
    pub contents: SpecFileContents,
}

impl Located for DirEntry {
    open spec fn location(&self) -> Seq<u8> {
        self.path@
    }

    fn path(&self) -> (r: &HostPath) {
        &self.path
    }
}

impl Located for SpecFile {
    open spec fn location(&self) -> Seq<u8> {
        self.path@
    }

    fn path(&self) -> (r: &HostPath) {
        &self.path
    }
}

/// Specification files are those with one of three extensions.
pub open spec fn is_spec_file_path(path: Seq<u8>) -> bool {
    match crate::path::extension(path) {
        Some(ext) => ext == crate::path::text_path("json"@) || ext == crate::path::text_path(
            "yaml"@,
        ) || ext == crate::path::text_path("yml"@),
        None => false,
    }
}

/// Directories are listed and specification files read; nothing else is looked at.
pub open spec fn planned_action(path: Seq<u8>, file_type: FileType) -> EntryAction {
    match file_type {
        FileType::Directory => EntryAction::ListDirectory,
        FileType::File => if is_spec_file_path(path) {
            EntryAction::ReadSpecFile
        } else {
            EntryAction::Skip
        },
        FileType::Other => EntryAction::Skip,
    }
}

/// The number of entries in and below an entry, itself counted.
pub open spec fn entry_size(entry: DirEntry) -> nat
    decreases entry,
{
    match entry.found {
        Found::Directory(Ok(entries)) => 1 + entries_size(entries@),
        _ => 1,
    }
}

/// The number of entries in and below all of `entries`.
pub open spec fn entries_size(entries: Seq<DirEntry>) -> nat
    decreases entries,
{
    if entries.len() == 0 {
        0
    } else {
        entries_size(entries.drop_last()) + entry_size(entries.last())
    }
}

pub open spec fn listing_size(listing: Result<Vec<DirEntry>, IoFailure>) -> nat {
    match listing {
        Ok(entries) => entries_size(entries@),
        Err(_) => 0,
    }
}

proof fn lemma_insert_size(entries: Seq<DirEntry>, entry: DirEntry)
    ensures
        entries_size(crate::sorting::insert_by_path(entries, entry)) == entries_size(entries)
            + entry_size(entry),
    decreases entries.len(),
{
    let inserted = crate::sorting::insert_by_path(entries, entry);
    if entries.len() > 0 && crate::path::path_less(
        entry.location(),
        entries.last().location(),
    ) {
        lemma_insert_size(entries.drop_last(), entry);
        assert(inserted.drop_last() =~= crate::sorting::insert_by_path(entries.drop_last(), entry));
    } else {
        assert(inserted.drop_last() =~= entries);
    }
}

/// Sorting leaves the number of entries as it is.
pub proof fn lemma_sorted_size(entries: Seq<DirEntry>)
    ensures
        entries_size(crate::sorting::sorted_by_path(entries)) == entries_size(entries),
    decreases entries.len(),
{
    if entries.len() > 0 {
        lemma_sorted_size(entries.drop_last());
        lemma_insert_size(
            crate::sorting::sorted_by_path(entries.drop_last()),
            entries.last(),
        );
    }
}

proof fn lemma_entry_size_bound(entries: Seq<DirEntry>, i: int)
    requires
        0 <= i < entries.len(),
    ensures
        entry_size(entries[i]) <= entries_size(entries),
    decreases entries.len(),
{
    if i < entries.len() - 1 {
        lemma_entry_size_bound(entries.drop_last(), i);
    }
}

/// The specification files met, and the failure that ended the search, if any.
pub struct Collected {
    pub files: Seq<SpecFile>,
    pub failure: Option<IoFailure>,
}

/// What the search knows after `entry`, when it had met `before`.
pub open spec fn collected_at(entry: DirEntry, before: Seq<SpecFile>) -> Collected
    decreases entry_size(entry), 1nat,
{
    match entry.found {
        Found::Failed(failure) => Collected { files: before, failure: Some(failure) },
        Found::File(contents) => Collected {
            files: if is_spec_file_path(entry.path@) {
                before.push(SpecFile { path: entry.path, contents })
            } else {
                before
            },
            failure: None,
        },
        Found::Skipped => Collected { files: before, failure: None },
        Found::Directory(listing) => collected_below(listing, before),
    }
}

/// What the search knows after `entries`, taken in order, when it had met `before`.
pub open spec fn collected_along(entries: Seq<DirEntry>, before: Seq<SpecFile>) -> Collected
    decreases entries_size(entries), 2nat,
{
    if entries.len() == 0 {
        Collected { files: before, failure: None }
    } else {
        proof {
            assert(entry_size(entries.last()) >= 1);
        }
        let so_far = collected_along(entries.drop_last(), before);
        if so_far.failure is Some {
            so_far
        } else {
            collected_at(entries.last(), so_far.files)
        }
    }
}

/// What the search knows after the directory with this listing, when it had met `before`. The
/// entries of a directory are taken in the order of their paths.
pub open spec fn collected_below(
    listing: Result<Vec<DirEntry>, IoFailure>,
    before: Seq<SpecFile>,
) -> Collected
    decreases listing_size(listing), 3nat,
{
    match listing {
        Err(failure) => Collected { files: before, failure: Some(failure) },
        Ok(entries) => {
            proof {
                lemma_sorted_size(entries@);
            }
            collected_along(crate::sorting::sorted_by_path(entries@), before)
        },
    }
}

/// The specification files in and below a directory, in the order of their paths, or the first
/// failure that the search for them met.
pub open spec fn found_spec_files(listing: Result<Vec<DirEntry>, IoFailure>) -> Result<
    Seq<SpecFile>,
    IoFailure,
> {
    let collected = collected_below(listing, seq![]);
    match collected.failure {
        Some(failure) => Err(failure),
        None => Ok(crate::sorting::sorted_by_path(collected.files)),
    }
}

/// Whether the file at `path` is a specification file.
pub fn is_cdi_spec_file(path: &HostPath) -> (r: bool)
    ensures
        r == is_spec_file_path(path@),
{
    path.has_extension("json") || path.has_extension("yaml") || path.has_extension("yml")
}

/// What is to be done about the entry at `path`.
pub fn entry_action(path: &HostPath, file_type: FileType) -> (r: EntryAction)
    ensures
        r == planned_action(path@, file_type),
{
    match file_type {
        FileType::Directory => EntryAction::ListDirectory,
        FileType::File => if is_cdi_spec_file(path) {
            EntryAction::ReadSpecFile
        } else {
            EntryAction::Skip
        },
        FileType::Other => EntryAction::Skip,
    }
}

/// Once the search has failed, the entries after the failure change nothing.
pub proof fn lemma_failure_stays(entries: Seq<DirEntry>, before: Seq<SpecFile>, n: int)
    requires
        0 <= n <= entries.len(),
        collected_along(entries.take(n), before).failure is Some,
    ensures
        collected_along(entries, before) == collected_along(entries.take(n), before),
    decreases entries.len(),
{
    if n < entries.len() {
        assert(entries.drop_last().take(n) =~= entries.take(n));
        lemma_failure_stays(entries.drop_last(), before, n);
    } else {
        assert(entries.take(n) =~= entries);
    }
}

/// Adds to `spec_files` the specification files in and below a directory, as far as the search
/// gets, and returns the failure that ended it, if any.
fn collect_cdi_spec_files(
    listing: Result<Vec<DirEntry>, IoFailure>,
    spec_files: &mut Vec<SpecFile>,
) -> (r: Result<(), IoFailure>)
    ensures
        final(spec_files)@ == collected_below(listing, old(spec_files)@).files,
        match r {
            Ok(()) => collected_below(listing, old(spec_files)@).failure is None,
            Err(failure) => collected_below(listing, old(spec_files)@).failure == Some(failure),
        },
    decreases listing_size(listing),
{
    let ghost start = spec_files@;
    let ghost bound = listing_size(listing);
    let entries = match listing {
        Ok(entries) => entries,
        Err(failure) => {
            return Err(failure);
        },
    };
    proof {
        lemma_sorted_size(entries@);
    }
    let entries = sort_by_path(entries);
    let ghost all = entries@;
    assert(all.take(0) =~= Seq::<DirEntry>::empty());
    for entry in it: entries.into_iter()
        invariant
            it.seq() == all,
            start == old(spec_files)@,
            bound == listing_size(listing),
            entries_size(all) == bound,
            collected_below(listing, start) == collected_along(all, start),
            collected_along(all.take(it.index()), start) == (Collected {
                files: spec_files@,
                failure: None,
            }),
    {
        let ghost n = it.index();
        let ghost met = spec_files@;
        proof {
            assert(all.take(n + 1).drop_last() =~= all.take(n));
            assert(all.take(n + 1).last() == entry);
            lemma_entry_size_bound(all, n);
            assert(collected_along(all.take(n + 1), start) == collected_at(entry, met));
        }
        match entry.found {
            Found::Failed(failure) => {
                proof {
                    lemma_failure_stays(all, start, n + 1);
                }
                return Err(failure);
            },
            Found::File(contents) => {
                if is_cdi_spec_file(&entry.path) {
                    spec_files.push(SpecFile { path: entry.path, contents });
                }
            },
            Found::Skipped => {},
            Found::Directory(inner) => {
                assert(listing_size(inner) < bound);
                if let Err(failure) = collect_cdi_spec_files(inner, spec_files) {
                    proof {
                        lemma_failure_stays(all, start, n + 1);
                    }
                    return Err(failure);
                }
            },
        }
    }
    assert(all.take(all.len() as int) =~= all);
    Ok(())
}

/// The specification files in and below a directory with this listing, in the order of their
/// paths.
pub fn cdi_spec_files(listing: Result<Vec<DirEntry>, IoFailure>) -> (r: Result<
    Vec<SpecFile>,
    IoFailure,
>)
    ensures
        match r {
            Ok(files) => found_spec_files(listing) == Ok::<Seq<SpecFile>, IoFailure>(files@),
            Err(failure) => found_spec_files(listing) == Err::<Seq<SpecFile>, IoFailure>(failure),
        },
{
    let mut spec_files: Vec<SpecFile> = Vec::new();
    if let Err(failure) = collect_cdi_spec_files(listing, &mut spec_files) {
        return Err(failure);
    }
    Ok(sort_by_path(spec_files))
}

/// The file system failed at the entry or below it.
pub open spec fn entry_fails(entry: DirEntry) -> bool
    decreases entry,
{
    match entry.found {
        Found::Failed(_) => true,
        Found::File(_) => false,
        Found::Skipped => false,
        Found::Directory(Err(_)) => true,
        Found::Directory(Ok(entries)) => entries_fail(entries@),
    }
}

/// The file system failed at one of the entries or below it.
pub open spec fn entries_fail(entries: Seq<DirEntry>) -> bool
    decreases entries,
{
    if entries.len() == 0 {
        false
    } else {
        entries_fail(entries.drop_last()) || entry_fails(entries.last())
    }
}

/// The specification files at the entry and below it.
pub open spec fn entry_files(entry: DirEntry) -> Multiset<SpecFile>
    decreases entry,
{
    match entry.found {
        Found::Failed(_) => Multiset::empty(),
        Found::File(contents) => if is_spec_file_path(entry.path@) {
            Multiset::singleton(SpecFile { path: entry.path, contents })
        } else {
            Multiset::empty()
        },
        Found::Skipped => Multiset::empty(),
        Found::Directory(Err(_)) => Multiset::empty(),
        Found::Directory(Ok(entries)) => entries_files(entries@),
    }
}

/// The specification files at the entries and below them.
pub open spec fn entries_files(entries: Seq<DirEntry>) -> Multiset<SpecFile>
    decreases entries,
{
    if entries.len() == 0 {
        Multiset::empty()
    } else {
        entries_files(entries.drop_last()).add(entry_files(entries.last()))
    }
}

proof fn lemma_insert_meets_the_same(entries: Seq<DirEntry>, entry: DirEntry)
    ensures
        entries_fail(crate::sorting::insert_by_path(entries, entry)) == (entries_fail(entries)
            || entry_fails(entry)),
        entries_files(crate::sorting::insert_by_path(entries, entry)) == entries_files(
            entries,
        ).add(entry_files(entry)),
    decreases entries.len(),
{
    let inserted = crate::sorting::insert_by_path(entries, entry);
    if entries.len() > 0 && crate::path::path_less(
        entry.location(),
        entries.last().location(),
    ) {
        lemma_insert_meets_the_same(entries.drop_last(), entry);
        assert(inserted.drop_last() =~= crate::sorting::insert_by_path(entries.drop_last(), entry));
        assert(entries_files(inserted) =~= entries_files(entries).add(entry_files(entry)));
    } else {
        assert(inserted.drop_last() =~= entries);
    }
}

proof fn lemma_sorting_meets_the_same(entries: Seq<DirEntry>)
    ensures
        entries_fail(crate::sorting::sorted_by_path(entries)) == entries_fail(entries),
        entries_files(crate::sorting::sorted_by_path(entries)) == entries_files(entries),
    decreases entries.len(),
{
    if entries.len() > 0 {
        lemma_sorting_meets_the_same(entries.drop_last());
        lemma_insert_meets_the_same(
            crate::sorting::sorted_by_path(entries.drop_last()),
            entries.last(),
        );
    }
}

proof fn lemma_collected_at(entry: DirEntry, before: Seq<SpecFile>)
    ensures
        collected_at(entry, before).failure is None <==> !entry_fails(entry),
        !entry_fails(entry) ==> collected_at(entry, before).files.to_multiset()
            == before.to_multiset().add(entry_files(entry)),
    decreases entry_size(entry), 1nat,
{
    broadcast use vstd::seq_lib::to_multiset_build;

    match entry.found {
        Found::Directory(Ok(entries)) => {
            lemma_sorted_size(entries@);
            lemma_sorting_meets_the_same(entries@);
            lemma_collected_along(crate::sorting::sorted_by_path(entries@), before);
        },
        Found::File(contents) => {
            let file = SpecFile { path: entry.path, contents };
            assert(before.push(file).to_multiset() =~= before.to_multiset().add(
                Multiset::singleton(file),
            ));
            assert(before.to_multiset() =~= before.to_multiset().add(Multiset::empty()));
        },
        _ => {
            assert(before.to_multiset() =~= before.to_multiset().add(Multiset::empty()));
        },
    }
}

/// The search along entries fails where one of them does, and else meets all files.
pub proof fn lemma_collected_along(entries: Seq<DirEntry>, before: Seq<SpecFile>)
    ensures
        collected_along(entries, before).failure is None <==> !entries_fail(entries),
        !entries_fail(entries) ==> collected_along(entries, before).files.to_multiset()
            == before.to_multiset().add(entries_files(entries)),
    decreases entries_size(entries), 2nat,
{
    if entries.len() > 0 {
        assert(entry_size(entries.last()) >= 1);
        let so_far = collected_along(entries.drop_last(), before);
        lemma_collected_along(entries.drop_last(), before);
        lemma_collected_at(entries.last(), so_far.files);
        assert(before.to_multiset().add(entries_files(entries)) =~= before.to_multiset().add(
            entries_files(entries.drop_last()),
        ).add(entry_files(entries.last())));
    } else {
        assert(before.to_multiset().add(entries_files(entries)) =~= before.to_multiset());
    }
}

/// The search succeeds where the file system fails nowhere in or below the directory, and finds
/// then every specification file there, each once, in the order of their paths. The order is strict
/// where no two of them have the same path.
pub proof fn law_search_is_exhaustive(listing: Result<Vec<DirEntry>, IoFailure>)
    ensures
        match (listing, found_spec_files(listing)) {
            (Ok(entries), Ok(files)) => {
                &&& !entries_fail(entries@)
                &&& files.to_multiset() == entries_files(entries@)
                &&& crate::sorting::is_sorted_by_path(files)
                &&& crate::sorting::paths_are_distinct(files)
                    ==> crate::sorting::is_strictly_sorted_by_path(files)
            },
            (Ok(entries), Err(_)) => entries_fail(entries@),
            (Err(failure), found) => found == Err::<Seq<SpecFile>, IoFailure>(failure),
        },
{
    let none: Seq<SpecFile> = seq![];
    if let Ok(entries) = listing {
        lemma_sorting_meets_the_same(entries@);
        lemma_collected_along(crate::sorting::sorted_by_path(entries@), none);
        let files = collected_below(listing, none).files;
        crate::sorting::law_sorting_is_stable(files, seq![]);
        let sorted = crate::sorting::sorted_by_path(files);
        if crate::sorting::paths_are_distinct(sorted) {
            crate::sorting::lemma_distinct_paths_sort_strictly(sorted);
        }
        none.to_multiset_ensures();
        assert(none.to_multiset() =~= Multiset::empty());
        assert(Multiset::<SpecFile>::empty().add(entries_files(entries@)) =~= entries_files(
            entries@,
        ));
    }
}

/// Each of the files has the extension of a specification file.
pub open spec fn all_spec_files(files: Seq<SpecFile>) -> bool {
    forall|i: int| 0 <= i < files.len() ==> is_spec_file_path((#[trigger] files[i]).path@)
}

proof fn lemma_spec_files_at(entry: DirEntry, before: Seq<SpecFile>)
    requires
        all_spec_files(before),
    ensures
        all_spec_files(collected_at(entry, before).files),
    decreases entry_size(entry), 1nat,
{
    if let Found::Directory(Ok(entries)) = entry.found {
        lemma_sorted_size(entries@);
        lemma_spec_files_along(crate::sorting::sorted_by_path(entries@), before);
    }
}

proof fn lemma_spec_files_along(entries: Seq<DirEntry>, before: Seq<SpecFile>)
    requires
        all_spec_files(before),
    ensures
        all_spec_files(collected_along(entries, before).files),
    decreases entries_size(entries), 2nat,
{
    if entries.len() > 0 {
        assert(entry_size(entries.last()) >= 1);
        lemma_spec_files_along(entries.drop_last(), before);
        lemma_spec_files_at(
            entries.last(),
            collected_along(entries.drop_last(), before).files,
        );
    }
}

/// Whatever files the search finds, they have the extension of a specification file.
pub proof fn law_only_spec_files_are_found(listing: Result<Vec<DirEntry>, IoFailure>)
    ensures
        found_spec_files(listing) matches Ok(files) ==> all_spec_files(files),
{
    if let (Ok(entries), Ok(files)) = (listing, found_spec_files(listing)) {
        let met = collected_below(listing, seq![]).files;
        lemma_spec_files_along(crate::sorting::sorted_by_path(entries@), seq![]);
        crate::sorting::law_sorting_is_stable(met, seq![]);
        files.to_multiset_ensures();
        met.to_multiset_ensures();
        assert forall|i: int| 0 <= i < files.len() implies is_spec_file_path(
            (#[trigger] files[i]).path@,
        ) by {
            assert(files.contains(files[i]));
            assert(met.to_multiset().count(files[i]) > 0);
            assert(met.contains(files[i]));
        }
    }
}

} // verus!

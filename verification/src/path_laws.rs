//! What paths mean, in terms of bytes.

use crate::listing::{DirEntry, FileType, SpecFile};
use crate::path::{Component, HostPath};
use crate::sorting::Located;
use vstd::prelude::*;

verus! {

proof fn lemma_one_segment(name: Seq<u8>)
    requires
        !name.contains(47u8),
    ensures
        crate::path::segments(name) == seq![name],
    decreases name.len(),
{
    if name.len() > 0 {
        let init = name.drop_last();
        assert forall|i: int| 0 <= i < init.len() implies init[i] != 47u8 by {
            assert(name.contains(name[i]));
        }
        lemma_one_segment(init);
        assert(name.contains(name[name.len() - 1]));
        assert(init.push(name.last()) =~= name);
        assert(crate::path::segments(name) =~= seq![name]);
    } else {
        assert(name =~= Seq::<u8>::empty());
    }
}

proof fn lemma_one_body(name: Seq<u8>)
    requires
        !name.contains(47u8),
    ensures
        crate::path::body_components(crate::path::segments(name)) == if name.len() == 0 || name
            == seq![46u8] {
            seq![]
        } else if name == seq![46u8, 46u8] {
            seq![Component::ParentDir]
        } else {
            seq![Component::Normal(name)]
        },
{
    lemma_one_segment(name);
    let one = seq![name];
    assert(one.drop_last() =~= Seq::<Seq<u8>>::empty());
    assert(crate::path::body_components(one.drop_last()) =~= Seq::<Component>::empty());
    assert(crate::path::body_components(one) =~= crate::path::segment_components(name));
}

/// The components of a path without slashes: none where it is empty, the directory itself for one
/// dot, the directory above for two dots, and else the name.
pub proof fn law_components_of_a_name(name: Seq<u8>)
    requires
        !name.contains(47u8),
    ensures
        crate::path::components(name) == if name.len() == 0 {
            seq![]
        } else if name == seq![46u8] {
            seq![Component::CurDir]
        } else if name == seq![46u8, 46u8] {
            seq![Component::ParentDir]
        } else {
            seq![Component::Normal(name)]
        },
{
    lemma_one_body(name);
    if name.len() > 0 {
        assert(name.contains(name[0]));
    }
    if name.len() > 1 {
        assert(name.contains(name[1]));
    }
    if name.len() == 1 && name[0] == 46u8 {
        assert(name =~= seq![46u8]);
    }
    assert(crate::path::leading_components(name) == if name == seq![46u8] {
        seq![Component::CurDir]
    } else {
        Seq::<Component>::empty()
    });
    assert(crate::path::components(name) =~= crate::path::leading_components(name)
        + crate::path::body_components(crate::path::segments(name)));
    if name.len() == 0 {
        assert(crate::path::components(name) =~= seq![]);
    } else if name == seq![46u8] {
        assert(crate::path::components(name) =~= seq![Component::CurDir]);
    } else if name == seq![46u8, 46u8] {
        assert(crate::path::components(name) =~= seq![Component::ParentDir]);
    } else {
        assert(crate::path::components(name) =~= seq![Component::Normal(name)]);
    }
}

/// What stands behind the last slash of a path adds to the components of what stands before it: a
/// name adds itself, two dots the directory above, one dot or nothing adds nothing. Before a slash
/// that begins a path stands the root.
pub proof fn law_components_behind_a_slash(before: Seq<u8>, name: Seq<u8>)
    requires
        !name.contains(47u8),
    ensures
        crate::path::components(before + seq![47u8] + name) == (if before.len() == 0 {
            seq![Component::RootDir]
        } else {
            crate::path::components(before)
        }) + (if name.len() == 0 || name == seq![46u8] {
            seq![]
        } else if name == seq![46u8, 46u8] {
            seq![Component::ParentDir]
        } else {
            seq![Component::Normal(name)]
        }),
{
    let path = before + seq![47u8] + name;
    lemma_one_body(name);
    crate::path::lemma_segments_around_slash(before, name);
    crate::path::lemma_body_components_of_both(
        crate::path::segments(before),
        crate::path::segments(name),
    );
    if before.len() == 0 {
        assert(!before.contains(47u8));
        lemma_one_body(before);
        assert(path[0] == 47u8);
        assert(crate::path::leading_components(path) == seq![Component::RootDir]);
    } else {
        assert(path[0] == before[0]);
        assert(before.len() > 1 ==> path[1] == before[1]);
        assert(before.len() == 1 ==> path[1] == 47u8);
        assert(crate::path::leading_components(path) == crate::path::leading_components(before));
    }
    let behind = crate::path::body_components(crate::path::segments(name));
    if before.len() == 0 {
        assert(crate::path::components(path) =~= seq![Component::RootDir] + behind);
    } else {
        assert(crate::path::components(path) =~= crate::path::components(before) + behind);
    }
}

/// Absolute paths are those that begin with a slash.
pub proof fn law_absolute_paths_begin_with_a_slash(path: Seq<u8>)
    ensures
        crate::path::is_absolute_path(path) <==> path.len() > 0 && path[0] == 47u8,
{
}

proof fn lemma_lex_decided_at<A>(a: Seq<A>, b: Seq<A>, less: spec_fn(A, A) -> bool, k: int)
    requires
        0 <= k <= a.len(),
        k <= b.len(),
        forall|j: int| 0 <= j < k ==> a[j] == b[j],
        k < a.len() && k < b.len() ==> a[k] != b[k],
    ensures
        crate::path::lex_less(a, b, less) <==> k < b.len() && (k == a.len() || less(a[k], b[k])),
    decreases k,
{
    if k > 0 {
        assert(a[0] == b[0]);
        lemma_lex_decided_at(a.drop_first(), b.drop_first(), less, k - 1);
    }
}

/// Paths are compared component by component, and the first components that differ decide; a path
/// that ends before them comes first. Paths are the same where no components differ.
pub proof fn law_first_different_component_decides(a: Seq<u8>, b: Seq<u8>, k: int)
    requires
        0 <= k <= crate::path::components(a).len(),
        k <= crate::path::components(b).len(),
        forall|j: int|
            0 <= j < k ==> crate::path::components(a)[j] == crate::path::components(b)[j],
        k < crate::path::components(a).len() && k < crate::path::components(b).len()
            ==> crate::path::components(a)[k] != crate::path::components(b)[k],
    ensures
        crate::path::path_less(a, b) <==> k < crate::path::components(b).len() && (k
            == crate::path::components(a).len() || crate::path::component_less(
            crate::path::components(a)[k],
            crate::path::components(b)[k],
        )),
        crate::path::same_path(a, b) <==> k == crate::path::components(a).len() && k
            == crate::path::components(b).len(),
{
    let x = crate::path::components(a);
    let y = crate::path::components(b);
    lemma_lex_decided_at(x, y, crate::path::component_order(), k);
    if k == x.len() && k == y.len() {
        assert(x =~= y);
    }
}

/// The root comes first, then the directory itself, then the directory above, then names.
pub proof fn law_names_come_last(a: Component, b: Component)
    ensures
        !(a is Normal && b is Normal) ==> (crate::path::component_less(a, b) <==> match a {
            Component::RootDir => !(b is RootDir),
            Component::CurDir => b is ParentDir || b is Normal,
            Component::ParentDir => b is Normal,
            Component::Normal(_) => false,
        }),
{
}

/// Names are compared byte by byte, and the first bytes that differ decide; a name that ends before
/// them comes first.
pub proof fn law_first_different_byte_decides(x: Seq<u8>, y: Seq<u8>, k: int)
    requires
        0 <= k <= x.len(),
        k <= y.len(),
        forall|j: int| 0 <= j < k ==> x[j] == y[j],
        k < x.len() && k < y.len() ==> x[k] != y[k],
    ensures
        crate::path::component_less(Component::Normal(x), Component::Normal(y)) <==> k < y.len() && (
        k == x.len() || x[k] < y[k]),
{
    lemma_lex_decided_at(x, y, crate::path::byte_order(), k);
}

/// A path has a file name where its last component is a name.
pub proof fn law_file_names_are_last_components(path: Seq<u8>, name: Seq<u8>)
    ensures
        crate::path::file_name(path) == Some(name) <==> crate::path::components(path).len() > 0
            && crate::path::components(path)[crate::path::components(path).len() - 1]
            == Component::Normal(name),
        crate::path::file_name(path) is None <==> crate::path::components(path).len() == 0
            || !(crate::path::components(path)[crate::path::components(path).len() - 1] is Normal),
{
}

/// The extension of a file is what follows the last dot of its name, unless nothing is before it;
/// names without a dot have none, and neither has a path without a file name.
pub proof fn law_extensions_follow_the_last_dot(path: Seq<u8>, stem: Seq<u8>, ext: Seq<u8>)
    requires
        !ext.contains(46u8),
    ensures
        crate::path::file_name(path) == Some(stem + seq![46u8] + ext) ==> crate::path::extension(
            path,
        ) == if stem.len() > 0 {
            Some(ext)
        } else {
            None
        },
        crate::path::file_name(path) == Some(ext) ==> crate::path::extension(path) is None,
        crate::path::file_name(path) is None ==> crate::path::extension(path) is None,
{
    let name = stem + seq![46u8] + ext;
    name.index_of_last_ensures(46u8);
    ext.index_of_last_ensures(46u8);
    assert(name[stem.len() as int] == 46u8);
    assert(name.contains(46u8));
    assert forall|j: int| stem.len() < j < name.len() implies name[j] != 46u8 by {
        assert(ext.contains(ext[j - stem.len() - 1]));
    }
    assert(name.index_of_last(46u8) == Some(stem.len() as int));
    assert(name.skip(stem.len() as int + 1) =~= ext);
}

/// The name is `stem`, a dot and `ext`.
pub open spec fn has_ending(name: Seq<u8>, stem: Seq<u8>, ext: Seq<u8>) -> bool {
    stem.len() > 0 && name == stem + seq![46u8] + ext
}

proof fn lemma_spec_extensions()
    ensures
        crate::path::text_path("json"@) == seq![106u8, 115u8, 111u8, 110u8],
        crate::path::text_path("yaml"@) == seq![121u8, 97u8, 109u8, 108u8],
        crate::path::text_path("yml"@) == seq![121u8, 109u8, 108u8],
{
    reveal_strlit("json");
    reveal_strlit("yaml");
    reveal_strlit("yml");
    assert("json"@.len() == 4);
    assert("yaml"@.len() == 4);
    assert("yml"@.len() == 3);
    assert(vstd::utf8::is_ascii_chars("json"@));
    assert(vstd::utf8::is_ascii_chars("yaml"@));
    assert(vstd::utf8::is_ascii_chars("yml"@));
    vstd::utf8::is_ascii_chars_encode_utf8("json"@);
    vstd::utf8::is_ascii_chars_encode_utf8("yaml"@);
    vstd::utf8::is_ascii_chars_encode_utf8("yml"@);
    assert("json"@[0] == 'j' && "json"@[1] == 's' && "json"@[2] == 'o' && "json"@[3] == 'n');
    assert("yaml"@[0] == 'y' && "yaml"@[1] == 'a' && "yaml"@[2] == 'm' && "yaml"@[3] == 'l');
    assert("yml"@[0] == 'y' && "yml"@[1] == 'm' && "yml"@[2] == 'l');
    assert(crate::path::text_path("json"@) =~= seq![106u8, 115u8, 111u8, 110u8]);
    assert(crate::path::text_path("yaml"@) =~= seq![121u8, 97u8, 109u8, 108u8]);
    assert(crate::path::text_path("yml"@) =~= seq![121u8, 109u8, 108u8]);
}

/// Specification files are those whose names end in `.json`, `.yaml` or `.yml`, with something
/// before the ending.
pub proof fn law_names_of_spec_files(path: Seq<u8>)
    ensures
        crate::listing::is_spec_file_path(path) <==> (crate::path::file_name(path) matches Some(
            name,
        ) && exists|stem: Seq<u8>|
            #![trigger stem.len()]
            has_ending(name, stem, seq![106u8, 115u8, 111u8, 110u8]) || has_ending(
                name,
                stem,
                seq![121u8, 97u8, 109u8, 108u8],
            ) || has_ending(name, stem, seq![121u8, 109u8, 108u8])),
{
    lemma_spec_extensions();
    let json = seq![106u8, 115u8, 111u8, 110u8];
    let yaml = seq![121u8, 97u8, 109u8, 108u8];
    let yml = seq![121u8, 109u8, 108u8];
    if let Some(name) = crate::path::file_name(path) {
        if crate::listing::is_spec_file_path(path) {
            name.index_of_last_ensures(46u8);
            let i = name.index_of_last(46u8)->Some_0;
            let stem = name.take(i);
            let ext = name.skip(i + 1);
            assert(name =~= stem + seq![46u8] + ext);
            assert(stem.len() > 0);
            assert(has_ending(name, stem, ext));
        }
        if exists|stem: Seq<u8>|
            #![trigger stem.len()]
            has_ending(name, stem, json) || has_ending(name, stem, yaml) || has_ending(
                name,
                stem,
                yml,
            ) {
            let stem = choose|stem: Seq<u8>|
                #![trigger stem.len()]
                has_ending(name, stem, json) || has_ending(name, stem, yaml) || has_ending(
                    name,
                    stem,
                    yml,
                );
            assert(!json.contains(46u8));
            assert(!yaml.contains(46u8));
            assert(!yml.contains(46u8));
            law_extensions_follow_the_last_dot(path, stem, json);
            law_extensions_follow_the_last_dot(path, stem, yaml);
            law_extensions_follow_the_last_dot(path, stem, yml);
        }
    }
}

/// Texts and paths are UTF-8 of each other: a path that is written down is shown as it was written,
/// and a path that is UTF-8 is written down as it was.
pub proof fn law_paths_are_written_in_utf8(text: Seq<char>, path: Seq<u8>)
    ensures
        crate::path::text_path(text) == vstd::utf8::encode_utf8(text),
        crate::path::path_text(vstd::utf8::encode_utf8(text)) == text,
        vstd::utf8::valid_utf8(path) ==> vstd::utf8::encode_utf8(crate::path::path_text(path))
            == path,
        !vstd::utf8::valid_utf8(path) ==> crate::path::path_text(path) == crate::path::lossy_text(
            path,
        ),
{
    vstd::utf8::encode_utf8_valid_utf8(text);
    vstd::utf8::encode_utf8_decode_utf8(text);
    if vstd::utf8::valid_utf8(path) {
        vstd::utf8::decode_utf8_encode_utf8(path);
    }
}

/// A path is its bytes, and stands where they say; two paths are equal where their components are,
/// and two binds where their paths are.
pub proof fn law_paths_are_their_bytes(
    path: HostPath,
    other: HostPath,
    entry: DirEntry,
    file: SpecFile,
    a: crate::binds::DeviceBind,
    b: crate::binds::DeviceBind,
)
    ensures
        path@ == path.bytes@,
        path.deep_view() == path.bytes@,
        entry.location() == entry.path.bytes@,
        file.location() == file.path.bytes@,
        vstd::std_specs::cmp::PartialEqSpec::eq_spec(&path, &other) <==> crate::path::components(
            path.bytes@,
        ) == crate::path::components(other.bytes@),
        vstd::std_specs::cmp::PartialEqSpec::eq_spec(&a, &b) <==> crate::path::components(
            a.source.bytes@,
        ) == crate::path::components(b.source.bytes@) && crate::path::components(
            a.destination.bytes@,
        ) == crate::path::components(b.destination.bytes@),
{
}

/// Directories are listed, files are read where their names are those of specification files, and
/// nothing else is looked at.
pub proof fn law_what_is_looked_at(path: Seq<u8>, file_type: FileType)
    ensures
        crate::listing::planned_action(path, file_type) is ListDirectory <==> file_type is Directory,
        crate::listing::planned_action(path, file_type) is ReadSpecFile <==> file_type is File
            && crate::listing::is_spec_file_path(path),
        crate::listing::planned_action(path, file_type) is Skip <==> file_type is Other || (
        file_type is File && !crate::listing::is_spec_file_path(path)),
{
}

} // verus!

//! The grammar of CDI names: `vendor.com/class=device`.

use crate::text::{contains_char, split_once};
use vstd::prelude::*;

verus! {

pub open spec fn is_ascii_letter(c: char) -> bool {
    'a' <= c <= 'z' || 'A' <= c <= 'Z'
}

pub open spec fn is_ascii_digit(c: char) -> bool {
    '0' <= c <= '9'
}

/// A character that a vendor or class name may hold.
pub open spec fn is_name_char(c: char) -> bool {
    is_ascii_letter(c) || is_ascii_digit(c) || c == '-' || c == '_' || c == '.'
}

/// A character that a device name may hold.
pub open spec fn is_device_name_char(c: char) -> bool {
    is_name_char(c) || c == ':'
}

pub open spec fn is_vendor_or_class_name(name: Seq<char>) -> bool {
    &&& name.len() > 0
    &&& is_ascii_letter(name[0])
    &&& name.all(|c: char| is_name_char(c))
}

pub open spec fn is_device_name(name: Seq<char>) -> bool {
    &&& name.len() > 0
    &&& name.all(|c: char| is_device_name_char(c))
}

/// `kind` is a vendor name, a slash and a class name.
pub open spec fn is_kind(kind: Seq<char>) -> bool {
    exists|vendor: Seq<char>, class: Seq<char>|
        is_vendor_or_class_name(vendor) && is_vendor_or_class_name(class) && kind == #[trigger] (
        vendor + seq!['/'] + class)
}

/// The name under which a device of a specification of this kind is requested.
pub open spec fn qualified_name(kind: Seq<char>, name: Seq<char>) -> Seq<char> {
    kind + seq!['='] + name
}

/// `device` is a kind, an equals sign and a device name.
pub open spec fn is_qualified_name(device: Seq<char>) -> bool {
    exists|kind: Seq<char>, name: Seq<char>|
        is_kind(kind) && is_device_name(name) && device == #[trigger] qualified_name(kind, name)
}

/// What is wrong with `name` as a vendor or class name.
pub open spec fn vendor_or_class_name_problem(name: Seq<char>) -> Option<Seq<char>> {
    if name.len() == 0 {
        Some("empty name"@)
    } else if !is_ascii_letter(name[0]) {
        Some("name should start with a letter"@)
    } else {
        match crate::text::first_rejected(name, |c: char| is_name_char(c)) {
            Some(i) => Some(
                "invalid character `"@ + seq![name[i]] + "` in name `"@ + name + "`"@,
            ),
            None => None,
        }
    }
}

/// What is wrong with `name` as a device name.
pub open spec fn device_name_problem(name: Seq<char>) -> Option<Seq<char>> {
    if name.len() == 0 {
        Some("empty device name"@)
    } else {
        match crate::text::first_rejected(name, |c: char| is_device_name_char(c)) {
            Some(i) => Some(
                "invalid character `"@ + seq![name[i]] + "` in device name `"@ + name + "`"@,
            ),
            None => None,
        }
    }
}

/// What is wrong with `kind` as the kind of a specification.
pub open spec fn kind_problem(kind: Seq<char>) -> Option<Seq<char>> {
    match crate::text::split_at_first(kind, '/') {
        None => Some("CDI kind `"@ + kind + "` must be of the form `vendor.com/class`"@),
        Some((vendor, class)) => if class.contains('/') {
            Some("CDI kind `"@ + kind + "` must contain exactly one `/` separator"@)
        } else {
            match (vendor_or_class_name_problem(vendor), vendor_or_class_name_problem(class)) {
                (Some(problem), _) => Some(
                    "invalid CDI vendor in `"@ + kind + "`: "@ + problem,
                ),
                (None, Some(problem)) => Some(
                    "invalid CDI class in `"@ + kind + "`: "@ + problem,
                ),
                (None, None) => None,
            }
        },
    }
}

/// What is wrong with `device` as the name of a requested device.
pub open spec fn qualified_name_problem(device: Seq<char>) -> Option<Seq<char>> {
    match crate::text::split_at_first(device, '=') {
        None => Some(
            "CDI device `"@ + device
                + "` must be a fully qualified name of the form `vendor.com/class=device`"@,
        ),
        Some((kind, name)) => if name.contains('=') {
            Some("CDI device `"@ + device + "` must contain exactly one `=` separator"@)
        } else {
            match (kind_problem(kind), device_name_problem(name)) {
                (Some(problem), _) => Some(problem),
                (None, Some(problem)) => Some(
                    "invalid CDI device `"@ + device + "`: "@ + problem,
                ),
                (None, None) => None,
            }
        },
    }
}

/// The problem that the result of a check reports.
pub open spec fn reported(r: Result<(), String>) -> Option<Seq<char>> {
    match r {
        Ok(()) => None,
        Err(problem) => Some(problem@),
    }
}

fn ascii_letter(c: char) -> (r: bool)
    ensures
        r == is_ascii_letter(c),
{
    ('a' <= c && c <= 'z') || ('A' <= c && c <= 'Z')
}

fn name_char(c: char) -> (r: bool)
    ensures
        r == is_name_char(c),
{
    ascii_letter(c) || ('0' <= c && c <= '9') || c == '-' || c == '_' || c == '.'
}

/// `before`, `quoted` and `after`, one behind the other.
fn around(before: &str, quoted: &str, after: &str) -> (r: String)
    ensures
        r@ == before@ + quoted@ + after@,
{
    let mut r = before.to_owned();
    r.append(quoted);
    r.append(after);
    r
}

/// Checks a vendor or class name.
pub fn validate_vendor_or_class_name(name: &str) -> (r: Result<(), String>)
    ensures
        reported(r) == vendor_or_class_name_problem(name@),
        r is Ok <==> is_vendor_or_class_name(name@),
{
    let n: usize = name.unicode_len();
    if n == 0 {
        return Err("empty name".to_owned());
    }
    if !ascii_letter(name.get_char(0)) {
        return Err("name should start with a letter".to_owned());
    }
    let ghost accepted = |c: char| is_name_char(c);
    let mut i: usize = 0;
    while i < n
        invariant
            i <= n,
            n == name@.len(),
            n > 0,
            is_ascii_letter(name@[0]),
            accepted == (|c: char| is_name_char(c)),
            forall|j: int| 0 <= j < i ==> accepted(#[trigger] name@[j]),
        decreases n - i,
    {
        if !name_char(name.get_char(i)) {
            let culprit = name.substring_char(i, i + 1);
            proof {
                crate::text::lemma_first_rejected(name@, accepted, i as int);
                assert(culprit@ =~= seq![name@[i as int]]);
                assert(!accepted(name@[i as int]));
            }
            let mut problem = around("invalid character `", culprit, "` in name `");
            problem.append(name);
            problem.append("`");
            return Err(problem);
        }
        i += 1;
    }
    assert(name@.all(accepted));
    Ok(())
}

/// Checks a device name.
pub fn validate_device_name(name: &str) -> (r: Result<(), String>)
    ensures
        reported(r) == device_name_problem(name@),
        r is Ok <==> is_device_name(name@),
{
    let n: usize = name.unicode_len();
    if n == 0 {
        return Err("empty device name".to_owned());
    }
    let ghost accepted = |c: char| is_device_name_char(c);
    let mut i: usize = 0;
    while i < n
        invariant
            i <= n,
            n == name@.len(),
            n > 0,
            accepted == (|c: char| is_device_name_char(c)),
            forall|j: int| 0 <= j < i ==> accepted(#[trigger] name@[j]),
        decreases n - i,
    {
        let c = name.get_char(i);
        if !name_char(c) && c != ':' {
            let culprit = name.substring_char(i, i + 1);
            proof {
                crate::text::lemma_first_rejected(name@, accepted, i as int);
                assert(culprit@ =~= seq![name@[i as int]]);
                assert(!accepted(name@[i as int]));
            }
            let mut problem = around("invalid character `", culprit, "` in device name `");
            problem.append(name);
            problem.append("`");
            return Err(problem);
        }
        i += 1;
    }
    assert(name@.all(accepted));
    Ok(())
}

/// A text with one separator in it splits into what stands around the separator.
proof fn lemma_split_around(before: Seq<char>, separator: char, after: Seq<char>)
    requires
        !before.contains(separator),
    ensures
        crate::text::split_at_first(before + seq![separator] + after, separator) == Some(
            (before, after),
        ),
{
    let s = before + seq![separator] + after;
    assert forall|j: int| 0 <= j < before.len() implies s[j] != separator by {
        assert(before.contains(before[j]));
    }
    crate::text::lemma_first_occurrence(s, separator, before.len() as int);
    assert(s.take(before.len() as int) =~= before);
    assert(s.skip(before.len() as int + 1) =~= after);
}

/// A text that splits is what stands around the separator, with the separator between.
proof fn lemma_split_joins(s: Seq<char>, separator: char)
    ensures
        match crate::text::split_at_first(s, separator) {
            Some((before, after)) => s == before + seq![separator] + after && !before.contains(
                separator,
            ),
            None => !s.contains(separator),
        },
{
    s.index_of_first_ensures(separator);
    if let Some(i) = s.index_of_first(separator) {
        assert(s =~= s.take(i) + seq![separator] + s.skip(i + 1));
        assert(!s.take(i).contains(separator));
    }
}

/// A vendor or class name is one that nothing is wrong with.
pub proof fn lemma_vendor_or_class_name(name: Seq<char>)
    ensures
        vendor_or_class_name_problem(name) is None <==> is_vendor_or_class_name(name),
{
}

/// A device name is one that nothing is wrong with.
pub proof fn lemma_device_name(name: Seq<char>)
    ensures
        device_name_problem(name) is None <==> is_device_name(name),
{
}

/// No accepted character is a separator of the grammar.
proof fn lemma_no_separator(name: Seq<char>)
    ensures
        is_vendor_or_class_name(name) ==> !name.contains('/') && !name.contains('='),
        is_device_name(name) ==> !name.contains('/') && !name.contains('='),
{
    let in_name = |c: char| is_name_char(c);
    let in_device_name = |c: char| is_device_name_char(c);
    assert forall|i: int|
        0 <= i < name.len() && (is_vendor_or_class_name(name) || is_device_name(
            name,
        )) implies name[i] != '/' && name[i] != '=' by {
        assert(in_name(name[i]) || in_device_name(name[i]));
    }
}

/// A kind is a text that nothing is wrong with as a kind.
pub proof fn lemma_kind(kind: Seq<char>)
    ensures
        kind_problem(kind) is None <==> is_kind(kind),
        is_kind(kind) ==> !kind.contains('='),
{
    lemma_split_joins(kind, '/');
    if let Some((vendor, class)) = crate::text::split_at_first(kind, '/') {
        lemma_vendor_or_class_name(vendor);
        lemma_vendor_or_class_name(class);
        lemma_no_separator(class);
        if kind_problem(kind) is None {
            assert(kind == vendor + seq!['/'] + class);
            assert(is_kind(kind));
        }
    }
    if is_kind(kind) {
        let (vendor, class) = choose|vendor: Seq<char>, class: Seq<char>|
            is_vendor_or_class_name(vendor) && is_vendor_or_class_name(class) && kind
                == #[trigger] (vendor + seq!['/'] + class);
        lemma_no_separator(vendor);
        lemma_no_separator(class);
        lemma_split_around(vendor, '/', class);
        lemma_vendor_or_class_name(vendor);
        lemma_vendor_or_class_name(class);
        assert forall|i: int| 0 <= i < kind.len() implies kind[i] != '=' by {
            if i < vendor.len() {
                assert(vendor.contains(vendor[i]));
            } else if i > vendor.len() {
                assert(class.contains(class[i - vendor.len() - 1]));
            }
        }
    }
}

/// A qualified name is a text that nothing is wrong with as a qualified name.
pub proof fn lemma_qualified_name(device: Seq<char>)
    ensures
        qualified_name_problem(device) is None <==> is_qualified_name(device),
{
    lemma_split_joins(device, '=');
    if let Some((kind, name)) = crate::text::split_at_first(device, '=') {
        lemma_kind(kind);
        lemma_device_name(name);
        if qualified_name_problem(device) is None {
            assert(device == qualified_name(kind, name));
        }
    }
    if is_qualified_name(device) {
        let (kind, name) = choose|kind: Seq<char>, name: Seq<char>|
            is_kind(kind) && is_device_name(name) && device == #[trigger] qualified_name(
                kind,
                name,
            );
        lemma_kind(kind);
        lemma_device_name(name);
        lemma_no_separator(name);
        lemma_split_around(kind, '=', name);
    }
}

/// A device that a well-formed specification defines can be requested under its qualified name.
pub proof fn law_defined_devices_can_be_requested(kind: Seq<char>, name: Seq<char>)
    requires
        kind_problem(kind) is None,
        device_name_problem(name) is None,
    ensures
        qualified_name_problem(qualified_name(kind, name)) is None,
{
    lemma_kind(kind);
    lemma_device_name(name);
    lemma_qualified_name(qualified_name(kind, name));
    assert(is_qualified_name(qualified_name(kind, name)));
}

/// A qualified name belongs to one kind and one device name only.
pub proof fn law_qualified_names_are_unambiguous(
    kind: Seq<char>,
    name: Seq<char>,
    other_kind: Seq<char>,
    other_name: Seq<char>,
)
    requires
        kind_problem(kind) is None,
        kind_problem(other_kind) is None,
        qualified_name(kind, name) == qualified_name(other_kind, other_name),
    ensures
        kind == other_kind,
        name == other_name,
{
    lemma_kind(kind);
    lemma_kind(other_kind);
    lemma_split_around(kind, '=', name);
    lemma_split_around(other_kind, '=', other_name);
}

/// Checks the kind of a specification.
pub fn validate_kind(kind: &str) -> (r: Result<(), String>)
    ensures
        reported(r) == kind_problem(kind@),
        r is Ok <==> is_kind(kind@),
{
    proof {
        lemma_kind(kind@);
    }
    let (vendor, class) = match split_once(kind, '/') {
        Some(parts) => parts,
        None => {
            return Err(around("CDI kind `", kind, "` must be of the form `vendor.com/class`"));
        },
    };
    if contains_char(class, '/') {
        return Err(around("CDI kind `", kind, "` must contain exactly one `/` separator"));
    }
    if let Err(problem) = validate_vendor_or_class_name(vendor) {
        let mut described = around("invalid CDI vendor in `", kind, "`: ");
        described.append(problem.as_str());
        return Err(described);
    }
    if let Err(problem) = validate_vendor_or_class_name(class) {
        let mut described = around("invalid CDI class in `", kind, "`: ");
        described.append(problem.as_str());
        return Err(described);
    }
    Ok(())
}

/// Checks the name of a requested device.
pub fn validate_qualified_name(device: &str) -> (r: Result<(), String>)
    ensures
        reported(r) == qualified_name_problem(device@),
        r is Ok <==> is_qualified_name(device@),
{
    proof {
        lemma_qualified_name(device@);
    }
    let (kind, name) = match split_once(device, '=') {
        Some(parts) => parts,
        None => {
            return Err(
                around(
                    "CDI device `",
                    device,
                    "` must be a fully qualified name of the form `vendor.com/class=device`",
                ),
            );
        },
    };
    if contains_char(name, '=') {
        return Err(around("CDI device `", device, "` must contain exactly one `=` separator"));
    }
    validate_kind(kind)?;
    if let Err(problem) = validate_device_name(name) {
        let mut described = around("invalid CDI device `", device, "`: ");
        described.append(problem.as_str());
        return Err(described);
    }
    Ok(())
}

} // verus!

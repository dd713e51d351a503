//! What text operations and names mean, in terms of characters and their code points.

use vstd::prelude::*;

verus! {

/// The code point is that of an ASCII letter.
pub open spec fn is_letter_code(code: u32) -> bool {
    65 <= code <= 90 || 97 <= code <= 122
}

/// The code point is that of an ASCII digit.
pub open spec fn is_digit_code(code: u32) -> bool {
    48 <= code <= 57
}

/// The code point is that of an ASCII letter or digit, of `-`, of `.` or of `_`.
pub open spec fn is_name_code(code: u32) -> bool {
    is_letter_code(code) || is_digit_code(code) || code == 45 || code == 46 || code == 95
}

/// The code point is one that vendor and class names hold, or that of `:`.
pub open spec fn is_device_code(code: u32) -> bool {
    is_name_code(code) || code == 58
}

/// The text begins with a letter and holds nothing but letters, digits, `-`, `.` and `_`.
pub open spec fn is_name_text(text: Seq<char>) -> bool {
    &&& text.len() > 0
    &&& is_letter_code(text[0] as u32)
    &&& forall|i: int| 0 <= i < text.len() ==> is_name_code(#[trigger] text[i] as u32)
}

/// The text is not empty and holds nothing but letters, digits, `-`, `.`, `_` and `:`.
pub open spec fn is_device_text(text: Seq<char>) -> bool {
    &&& text.len() > 0
    &&& forall|i: int| 0 <= i < text.len() ==> is_device_code(#[trigger] text[i] as u32)
}

/// Vendor and class with a slash between them.
pub open spec fn written_kind(vendor: Seq<char>, class: Seq<char>) -> Seq<char> {
    vendor + seq!['/'] + class
}

/// Vendor, class and device, with a slash and an equals sign between them.
pub open spec fn written_device(vendor: Seq<char>, class: Seq<char>, name: Seq<char>) -> Seq<char> {
    vendor + seq!['/'] + class + seq!['='] + name
}

/// All ASCII letters, all ten digits, `-`, `.` and `_` are characters of names, in device names `:`
/// is too, and no other character is.
pub proof fn law_characters_of_names(c: char)
    ensures
        crate::names::is_ascii_letter(c) <==> 65 <= c as u32 <= 90 || 97 <= c as u32 <= 122,
        crate::names::is_ascii_digit(c) <==> 48 <= c as u32 <= 57,
        crate::names::is_name_char(c) <==> is_name_code(c as u32),
        crate::names::is_device_name_char(c) <==> is_device_code(c as u32),
{
}

/// Which texts are vendor names, class names and device names.
pub proof fn law_texts_that_are_names(text: Seq<char>)
    ensures
        crate::names::is_vendor_or_class_name(text) <==> is_name_text(text),
        crate::names::is_device_name(text) <==> is_device_text(text),
{
    let in_name = |c: char| crate::names::is_name_char(c);
    let in_device_name = |c: char| crate::names::is_device_name_char(c);
    if text.len() > 0 {
        law_characters_of_names(text[0]);
    }
    if crate::names::is_vendor_or_class_name(text) {
        assert forall|i: int| 0 <= i < text.len() implies is_name_code(
            #[trigger] text[i] as u32,
        ) by {
            assert(in_name(text[i]));
            law_characters_of_names(text[i]);
        }
    }
    if is_name_text(text) {
        assert forall|i: int| 0 <= i < text.len() implies in_name(#[trigger] text[i]) by {
            assert(is_name_code(text[i] as u32));
            law_characters_of_names(text[i]);
        }
        assert(text.all(in_name));
    }
    if crate::names::is_device_name(text) {
        assert forall|i: int| 0 <= i < text.len() implies is_device_code(
            #[trigger] text[i] as u32,
        ) by {
            assert(in_device_name(text[i]));
            law_characters_of_names(text[i]);
        }
    }
    if is_device_text(text) {
        assert forall|i: int| 0 <= i < text.len() implies in_device_name(#[trigger] text[i]) by {
            assert(is_device_code(text[i] as u32));
            law_characters_of_names(text[i]);
        }
        assert(text.all(in_device_name));
    }
}

/// Kinds are what vendor and class names make with a slash between them.
pub proof fn law_texts_that_are_kinds(text: Seq<char>)
    ensures
        crate::names::is_kind(text) <==> exists|vendor: Seq<char>, class: Seq<char>|
            is_name_text(vendor) && is_name_text(class) && text == #[trigger] written_kind(
                vendor,
                class,
            ),
{
    if crate::names::is_kind(text) {
        let (vendor, class) = choose|vendor: Seq<char>, class: Seq<char>|
            crate::names::is_vendor_or_class_name(vendor) && crate::names::is_vendor_or_class_name(
                class,
            ) && text == #[trigger] (vendor + seq!['/'] + class);
        law_texts_that_are_names(vendor);
        law_texts_that_are_names(class);
        assert(text == written_kind(vendor, class));
    }
    if exists|vendor: Seq<char>, class: Seq<char>|
        is_name_text(vendor) && is_name_text(class) && text == #[trigger] written_kind(
            vendor,
            class,
        ) {
        let (vendor, class) = choose|vendor: Seq<char>, class: Seq<char>|
            is_name_text(vendor) && is_name_text(class) && text == #[trigger] written_kind(
                vendor,
                class,
            );
        law_texts_that_are_names(vendor);
        law_texts_that_are_names(class);
        assert(text == vendor + seq!['/'] + class);
    }
}

/// Qualified names are what a vendor name, a class name and a device name make with a slash and an
/// equals sign between them.
pub proof fn law_texts_that_are_qualified_names(text: Seq<char>)
    ensures
        crate::names::is_qualified_name(text) <==> exists|
            vendor: Seq<char>,
            class: Seq<char>,
            name: Seq<char>,
        |
            is_name_text(vendor) && is_name_text(class) && is_device_text(name) && text
                == #[trigger] written_device(vendor, class, name),
{
    if crate::names::is_qualified_name(text) {
        let (kind, name) = choose|kind: Seq<char>, name: Seq<char>|
            crate::names::is_kind(kind) && crate::names::is_device_name(name) && text
                == #[trigger] crate::names::qualified_name(kind, name);
        law_texts_that_are_kinds(kind);
        law_texts_that_are_names(name);
        let (vendor, class) = choose|vendor: Seq<char>, class: Seq<char>|
            is_name_text(vendor) && is_name_text(class) && kind == #[trigger] written_kind(
                vendor,
                class,
            );
        assert(text == written_device(vendor, class, name));
    }
    if exists|vendor: Seq<char>, class: Seq<char>, name: Seq<char>|
        is_name_text(vendor) && is_name_text(class) && is_device_text(name) && text
            == #[trigger] written_device(vendor, class, name) {
        let (vendor, class, name) = choose|vendor: Seq<char>, class: Seq<char>, name: Seq<char>|
            is_name_text(vendor) && is_name_text(class) && is_device_text(name) && text
                == #[trigger] written_device(vendor, class, name);
        let kind = written_kind(vendor, class);
        law_texts_that_are_kinds(kind);
        law_texts_that_are_names(name);
        assert(text == crate::names::qualified_name(kind, name));
    }
}

/// The qualified name of a device is its kind, an equals sign and its name.
pub proof fn law_qualified_names_are_written_out(kind: Seq<char>, name: Seq<char>)
    ensures
        crate::names::qualified_name(kind, name).len() == kind.len() + 1 + name.len(),
        crate::names::qualified_name(kind, name).take(kind.len() as int) == kind,
        crate::names::qualified_name(kind, name)[kind.len() as int] == '=',
        crate::names::qualified_name(kind, name).skip(kind.len() as int + 1) == name,
{
    let whole = crate::names::qualified_name(kind, name);
    assert(whole.take(kind.len() as int) =~= kind);
    assert(whole.skip(kind.len() as int + 1) =~= name);
}

/// A text is split around the first separator in it, and not at all where there is none.
pub proof fn law_texts_split_at_the_first_separator(
    before: Seq<char>,
    separator: char,
    after: Seq<char>,
)
    requires
        !before.contains(separator),
    ensures
        crate::text::split_at_first(before + seq![separator] + after, separator) == Some(
            (before, after),
        ),
        crate::text::split_at_first(before, separator) is None,
{
    let s = before + seq![separator] + after;
    assert forall|j: int| 0 <= j < before.len() implies s[j] != separator by {
        assert(before.contains(before[j]));
    }
    crate::text::lemma_first_occurrence(s, separator, before.len() as int);
    before.index_of_first_ensures(separator);
    assert(s.take(before.len() as int) =~= before);
    assert(s.skip(before.len() as int + 1) =~= after);
}

/// The first character that is turned down is one with none before it that is.
pub proof fn law_first_rejected_character(s: Seq<char>, accepted: spec_fn(char) -> bool, i: int)
    requires
        0 <= i <= s.len(),
        forall|j: int| 0 <= j < i ==> accepted(#[trigger] s[j]),
        i < s.len() ==> !accepted(s[i]),
    ensures
        crate::text::first_rejected(s, accepted) == if i < s.len() {
            Some(i)
        } else {
            None
        },
{
    if i < s.len() {
        assert(crate::text::is_first_rejected(s, accepted, i));
        crate::text::lemma_first_rejected(s, accepted, i);
    } else {
        assert(s.all(accepted));
    }
}

/// Nothing joins to nothing, one part to itself, and what is joined in two portions has the
/// separator between the portions.
pub proof fn law_joining(
    part: Seq<char>,
    before: Seq<Seq<char>>,
    after: Seq<Seq<char>>,
    separator: Seq<char>,
)
    ensures
        crate::text::joined(seq![], separator) == Seq::<char>::empty(),
        crate::text::joined(seq![part], separator) == part,
        before.len() > 0 && after.len() > 0 ==> crate::text::joined(before + after, separator)
            == crate::text::joined(before, separator) + separator + crate::text::joined(
            after,
            separator,
        ),
    decreases after.len(),
{
    if before.len() > 0 && after.len() > 0 {
        let both = before + after;
        assert(both.drop_last() =~= before + after.drop_last());
        assert(both.last() == after.last());
        if after.len() == 1 {
            assert(both.drop_last() =~= before);
        } else {
            law_joining(part, before, after.drop_last(), separator);
        }
        assert(crate::text::joined(both, separator) =~= crate::text::joined(before, separator)
            + separator + crate::text::joined(after, separator));
    }
}

/// What is told of a vendor or class name: that it is empty, that it does not begin with a letter,
/// or which is the first character in it that names do not hold.
pub proof fn law_problems_of_vendor_and_class_names(name: Seq<char>, i: int)
    requires
        0 <= i <= name.len(),
        forall|j: int| 0 <= j < i ==> is_name_code(#[trigger] name[j] as u32),
        i < name.len() ==> !is_name_code(name[i] as u32),
    ensures
        crate::names::vendor_or_class_name_problem(name) == if name.len() == 0 {
            Some("empty name"@)
        } else if !is_letter_code(name[0] as u32) {
            Some("name should start with a letter"@)
        } else if i < name.len() {
            Some("invalid character `"@ + seq![name[i]] + "` in name `"@ + name + "`"@)
        } else {
            None
        },
{
    let accepted = |c: char| crate::names::is_name_char(c);
    assert forall|j: int| 0 <= j < i implies accepted(#[trigger] name[j]) by {
        assert(is_name_code(name[j] as u32));
        law_characters_of_names(name[j]);
    }
    if name.len() > 0 {
        law_characters_of_names(name[0]);
    }
    if i < name.len() {
        law_characters_of_names(name[i]);
    }
    law_first_rejected_character(name, accepted, i);
}

/// What is told of a device name: that it is empty, or which is the first character in it that
/// device names do not hold.
pub proof fn law_problems_of_device_names(name: Seq<char>, i: int)
    requires
        0 <= i <= name.len(),
        forall|j: int| 0 <= j < i ==> is_device_code(#[trigger] name[j] as u32),
        i < name.len() ==> !is_device_code(name[i] as u32),
    ensures
        crate::names::device_name_problem(name) == if name.len() == 0 {
            Some("empty device name"@)
        } else if i < name.len() {
            Some("invalid character `"@ + seq![name[i]] + "` in device name `"@ + name + "`"@)
        } else {
            None
        },
{
    let accepted = |c: char| crate::names::is_device_name_char(c);
    assert forall|j: int| 0 <= j < i implies accepted(#[trigger] name[j]) by {
        assert(is_device_code(name[j] as u32));
        law_characters_of_names(name[j]);
    }
    if name.len() > 0 {
        law_characters_of_names(name[0]);
    }
    if i < name.len() {
        law_characters_of_names(name[i]);
    }
    law_first_rejected_character(name, accepted, i);
}

/// What is told of a kind, by the vendor before the first slash in it and the class behind that
/// slash, or of a text without a slash.
pub proof fn law_problems_of_kinds(vendor: Seq<char>, class: Seq<char>)
    requires
        !vendor.contains('/'),
    ensures
        crate::names::kind_problem(vendor) == Some(
            "CDI kind `"@ + vendor + "` must be of the form `vendor.com/class`"@,
        ),
        class.contains('/') ==> crate::names::kind_problem(written_kind(vendor, class)) == Some(
            "CDI kind `"@ + written_kind(vendor, class)
                + "` must contain exactly one `/` separator"@,
        ),
        !class.contains('/') ==> (match (
            crate::names::vendor_or_class_name_problem(vendor),
            crate::names::vendor_or_class_name_problem(class),
        ) {
            (Some(problem), _) => crate::names::kind_problem(written_kind(vendor, class)) == Some(
                "invalid CDI vendor in `"@ + written_kind(vendor, class) + "`: "@ + problem,
            ),
            (None, Some(problem)) => crate::names::kind_problem(written_kind(vendor, class))
                == Some("invalid CDI class in `"@ + written_kind(vendor, class) + "`: "@ + problem),
            (None, None) => crate::names::kind_problem(written_kind(vendor, class)) is None,
        }),
{
    law_texts_split_at_the_first_separator(vendor, '/', class);
}

/// What is told of a requested name, by the kind before the first equals sign in it and the device
/// name behind that sign, or of a text without an equals sign.
pub proof fn law_problems_of_qualified_names(kind: Seq<char>, name: Seq<char>)
    requires
        !kind.contains('='),
    ensures
        ({
            let device = kind + seq!['='] + name;
            &&& crate::names::qualified_name_problem(kind) == Some(
                "CDI device `"@ + kind
                    + "` must be a fully qualified name of the form `vendor.com/class=device`"@,
            )
            &&& name.contains('=') ==> crate::names::qualified_name_problem(device) == Some(
                "CDI device `"@ + device + "` must contain exactly one `=` separator"@,
            )
            &&& !name.contains('=') ==> (match (
                crate::names::kind_problem(kind),
                crate::names::device_name_problem(name),
            ) {
                (Some(problem), _) => crate::names::qualified_name_problem(device) == Some(problem),
                (None, Some(problem)) => crate::names::qualified_name_problem(device) == Some(
                    "invalid CDI device `"@ + device + "`: "@ + problem,
                ),
                (None, None) => crate::names::qualified_name_problem(device) is None,
            })
        }),
{
    law_texts_split_at_the_first_separator(kind, '=', name);
}

/// A name is told to be wrong where it is not in the grammar, and only there.
pub proof fn law_problems_are_told_of_what_is_no_name(text: Seq<char>)
    ensures
        crate::names::vendor_or_class_name_problem(text) is None <==> is_name_text(text),
        crate::names::device_name_problem(text) is None <==> is_device_text(text),
        crate::names::kind_problem(text) is None <==> exists|vendor: Seq<char>, class: Seq<char>|
            is_name_text(vendor) && is_name_text(class) && text == #[trigger] written_kind(
                vendor,
                class,
            ),
        crate::names::qualified_name_problem(text) is None <==> exists|
            vendor: Seq<char>,
            class: Seq<char>,
            name: Seq<char>,
        |
            is_name_text(vendor) && is_name_text(class) && is_device_text(name) && text
                == #[trigger] written_device(vendor, class, name),
{
    law_texts_that_are_names(text);
    law_texts_that_are_kinds(text);
    law_texts_that_are_qualified_names(text);
    crate::names::lemma_vendor_or_class_name(text);
    crate::names::lemma_device_name(text);
    crate::names::lemma_kind(text);
    crate::names::lemma_qualified_name(text);
}

/// A check that fails reports the text that it returns, and one that does not reports nothing.
pub proof fn law_checks_report_what_they_return(problem: String)
    ensures
        crate::names::reported(Err(problem)) == Some(problem@),
        crate::names::reported(Ok(())) is None,
{
}

} // verus!

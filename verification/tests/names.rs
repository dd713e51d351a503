//! The grammar of names.

use cdi::names::{
    validate_device_name, validate_kind, validate_qualified_name, validate_vendor_or_class_name,
};
use cdi::text::{contains_char, join, split_once};

fn problem(r: Result<(), String>) -> String {
    r.expect_err("a problem")
}

#[test]
fn vendor_and_class_names() {
    assert_eq!(validate_vendor_or_class_name("vendor.com"), Ok(()));
    assert_eq!(validate_vendor_or_class_name("V-1_x.Y"), Ok(()));
    assert_eq!(problem(validate_vendor_or_class_name("")), "empty name");
    assert_eq!(
        problem(validate_vendor_or_class_name("0vendor")),
        "name should start with a letter"
    );
    assert_eq!(
        problem(validate_vendor_or_class_name("\u{e9}t\u{e9}")),
        "name should start with a letter"
    );
    assert_eq!(
        problem(validate_vendor_or_class_name("a b:c")),
        "invalid character ` ` in name `a b:c`"
    );
    assert_eq!(
        problem(validate_vendor_or_class_name("a:b")),
        "invalid character `:` in name `a:b`"
    );
    assert_eq!(
        problem(validate_vendor_or_class_name("a\u{fc}b")),
        "invalid character `\u{fc}` in name `a\u{fc}b`"
    );
}

#[test]
fn device_names() {
    assert_eq!(validate_device_name("0"), Ok(()));
    assert_eq!(validate_device_name("GPU-1:2_3.4"), Ok(()));
    assert_eq!(problem(validate_device_name("")), "empty device name");
    assert_eq!(
        problem(validate_device_name("a/b")),
        "invalid character `/` in device name `a/b`"
    );
    assert_eq!(
        problem(validate_device_name("x\u{1f600}")),
        "invalid character `\u{1f600}` in device name `x\u{1f600}`"
    );
}

#[test]
fn kinds() {
    assert_eq!(validate_kind("vendor.com/gpu"), Ok(()));
    assert_eq!(
        problem(validate_kind("gpu")),
        "CDI kind `gpu` must be of the form `vendor.com/class`"
    );
    assert_eq!(
        problem(validate_kind("a/b/c")),
        "CDI kind `a/b/c` must contain exactly one `/` separator"
    );
    assert_eq!(problem(validate_kind("/b")), "invalid CDI vendor in `/b`: empty name");
    assert_eq!(problem(validate_kind("a/")), "invalid CDI class in `a/`: empty name");
    assert_eq!(
        problem(validate_kind("1/2")),
        "invalid CDI vendor in `1/2`: name should start with a letter"
    );
    assert_eq!(
        problem(validate_kind("a/b=")),
        "invalid CDI class in `a/b=`: invalid character `=` in name `b=`"
    );
}

#[test]
fn qualified_names() {
    assert_eq!(validate_qualified_name("vendor.com/gpu=all"), Ok(()));
    assert_eq!(
        problem(validate_qualified_name("vendor.com/gpu")),
        "CDI device `vendor.com/gpu` must be a fully qualified name of the form \
         `vendor.com/class=device`"
    );
    assert_eq!(
        problem(validate_qualified_name("a/b=c=d")),
        "CDI device `a/b=c=d` must contain exactly one `=` separator"
    );
    assert_eq!(
        problem(validate_qualified_name("gpu=0")),
        "CDI kind `gpu` must be of the form `vendor.com/class`"
    );
    assert_eq!(
        problem(validate_qualified_name("a/b=")),
        "invalid CDI device `a/b=`: empty device name"
    );
    assert_eq!(
        problem(validate_qualified_name("a/b=x/y")),
        "invalid CDI device `a/b=x/y`: invalid character `/` in device name `x/y`"
    );
}

#[test]
fn a_kind_and_a_device_name_make_a_qualified_name() {
    for kind in ["vendor.com/gpu", "a/b", "x-y_z/K.1"] {
        for name in ["0", "all", "a:b", "-"] {
            assert_eq!(validate_kind(kind), Ok(()));
            assert_eq!(validate_device_name(name), Ok(()));
            let qualified = format!("{kind}={name}");
            assert_eq!(validate_qualified_name(&qualified), Ok(()));
            assert_eq!(split_once(&qualified, '='), Some((kind, name)));
        }
    }
}

#[test]
fn splitting_searching_and_joining() {
    assert_eq!(split_once("\u{e9}=b=c", '='), Some(("\u{e9}", "b=c")));
    assert_eq!(split_once("=", '='), Some(("", "")));
    assert_eq!(split_once("abc", '='), None);
    assert!(contains_char("a\u{e9}b", '\u{e9}'));
    assert!(!contains_char("", 'a'));
    let parts: Vec<String> = ["a", "", "b"].iter().map(|part| part.to_string()).collect();
    assert_eq!(join(&parts, ", "), "a, , b");
    assert_eq!(join(&parts[..1], ", "), "a");
    assert_eq!(join(&[], ", "), "");
}

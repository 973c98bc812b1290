use run_make_support::naming::{
    bin_name, dynamic_lib_extension, dynamic_lib_name, native_static_lib_plan, rust_lib_name,
    static_lib_name,
};
use run_make_support::paths::{has_extension, has_prefix};
use run_make_support::targets::{is_darwin, is_msvc, is_windows};

const LINUX: &str = "x86_64-unknown-linux-gnu";
const MSVC: &str = "x86_64-pc-windows-msvc";
const MINGW: &str = "x86_64-pc-windows-gnu";
const DARWIN: &str = "aarch64-apple-darwin";

#[test]
fn target_predicates() {
    assert!(is_windows(MSVC));
    assert!(is_windows(MINGW));
    assert!(!is_windows(LINUX));
    assert!(is_msvc(MSVC));
    assert!(!is_msvc(MINGW));
    assert!(is_darwin(DARWIN));
    assert!(!is_darwin(LINUX));
}

#[test]
fn static_lib_names() {
    assert_eq!(static_lib_name("foo", LINUX), "libfoo.a");
    assert_eq!(static_lib_name("foo", MSVC), "foo.lib");
    assert_eq!(static_lib_name("foo", MINGW), "libfoo.a");
    assert_eq!(static_lib_name("foo", DARWIN), "libfoo.a");
}

#[test]
fn dynamic_lib_names() {
    assert_eq!(dynamic_lib_extension(LINUX), "so");
    assert_eq!(dynamic_lib_extension(DARWIN), "dylib");
    assert_eq!(dynamic_lib_extension(MSVC), "dll");
    assert_eq!(dynamic_lib_name("foo", LINUX), "libfoo.so");
    assert_eq!(dynamic_lib_name("foo", DARWIN), "libfoo.dylib");
    assert_eq!(dynamic_lib_name("foo", MSVC), "foo.dll");
    assert_eq!(dynamic_lib_name("foo", MINGW), "foo.dll");
}

#[test]
fn rust_lib_and_bin_names() {
    assert_eq!(rust_lib_name("foo"), "libfoo.rlib");
    assert_eq!(rust_lib_name(""), "lib.rlib");
    assert_eq!(bin_name("foo", MSVC), "foo.exe");
    assert_eq!(bin_name("foo", LINUX), "foo");
    assert_eq!(bin_name("foo", DARWIN), "foo");
}

#[test]
fn native_static_lib_plans() {
    let p = native_static_lib_plan("native", LINUX);
    assert!(p.verbose);
    assert_eq!(p.obj_file, "native.o");
    assert_eq!(p.src, "native.c");
    assert_eq!(p.archive_input, "native.o");
    assert_eq!(p.lib_path, "libnative.a");
    let p = native_static_lib_plan("native", MSVC);
    assert!(!p.verbose);
    assert_eq!(p.obj_file, "native");
    assert_eq!(p.src, "native.c");
    assert_eq!(p.archive_input, "native.obj");
    assert_eq!(p.lib_path, "native.lib");
}

#[test]
fn library_names_have_their_extensions() {
    assert!(has_extension(rust_lib_name("foo").as_bytes(), "rlib"));
    assert!(has_prefix(rust_lib_name("foo").as_bytes(), "lib"));
    assert!(has_extension(static_lib_name("foo", MSVC).as_bytes(), "lib"));
    assert!(has_extension(static_lib_name("foo", LINUX).as_bytes(), "a"));
    assert!(has_extension(dynamic_lib_name("foo", DARWIN).as_bytes(), "dylib"));
    assert!(has_extension(bin_name("foo", MSVC).as_bytes(), "exe"));
}

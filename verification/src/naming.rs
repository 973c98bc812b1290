use vstd::prelude::*;

use crate::targets::{is_darwin, is_msvc, is_windows, spec_is_darwin, spec_is_msvc, spec_is_windows};
use crate::paths::{lemma_name_with_extension, no_separator, text_extension, text_file_name};
use crate::text::has_whitespace;

verus! {

/// The file name of the static library `name` on `target`.
pub open spec fn static_lib_file(name: Seq<char>, target: Seq<char>) -> Seq<char> {
    if spec_is_msvc(target) {
        name + ".lib"@
    } else {
        "lib"@ + name + ".a"@
    }
}

/// The extension of dynamic libraries on `target`.
pub open spec fn dynamic_lib_ext(target: Seq<char>) -> Seq<char> {
    if spec_is_darwin(target) {
        "dylib"@
    } else if spec_is_windows(target) {
        "dll"@
    } else {
        "so"@
    }
}

/// The file name of the dynamic library `name` on `target`.
pub open spec fn dynamic_lib_file(name: Seq<char>, target: Seq<char>) -> Seq<char> {
    if spec_is_darwin(target) {
        "lib"@ + name + "."@ + dynamic_lib_ext(target)
    } else if spec_is_windows(target) {
        name + "."@ + dynamic_lib_ext(target)
    } else {
        "lib"@ + name + "."@ + dynamic_lib_ext(target)
    }
}

/// The file name of the rust library (rlib) `name`.
pub open spec fn rust_lib_file(name: Seq<char>) -> Seq<char> {
    "lib"@ + name + ".rlib"@
}

/// The file name of the binary `name` on `target`.
pub open spec fn bin_file(name: Seq<char>, target: Seq<char>) -> Seq<char> {
    if spec_is_windows(target) {
        name + ".exe"@
    } else {
        name
    }
}

/// Construct the static library name based on the platform.
pub fn static_lib_name(name: &str, target: &str) -> (res: String)
    requires
        !has_whitespace(name@),
    ensures
        res@ == static_lib_file(name@, target@),
        spec_is_msvc(target@) ==> res@.len() == name@.len() as int + 4 && res@.subrange(0, name@.len() as int)
            == name@ && res@.subrange(name@.len() as int, name@.len() as int + 4) == ".lib"@,
        !spec_is_msvc(target@) ==> res@.len() == name@.len() as int + 5 && res@.subrange(0, 3) == "lib"@
            && res@.subrange(3, name@.len() as int + 3) == name@ && res@.subrange(name@.len() as int + 3, name@.len() as int + 5)
            == ".a"@,
{
    proof {
        lemma_static_lib_name_layout(name@, target@);
    }
    if is_msvc(target) {
        let mut s = name.to_owned();
        s.append(".lib");
        s
    } else {
        let mut s = "lib".to_owned();
        s.append(name);
        s.append(".a");
        s
    }
}

/// The extension of dynamic libraries on the platform.
pub fn dynamic_lib_extension(target: &str) -> (res: &'static str)
    ensures
        res@ == dynamic_lib_ext(target@),
        spec_is_darwin(target@) ==> res@ == "dylib"@,
        !spec_is_darwin(target@) && spec_is_windows(target@) ==> res@ == "dll"@,
        !spec_is_darwin(target@) && !spec_is_windows(target@) ==> res@ == "so"@,
{
    if is_darwin(target) {
        "dylib"
    } else if is_windows(target) {
        "dll"
    } else {
        "so"
    }
}

/// Construct the dynamic library name based on the platform.
pub fn dynamic_lib_name(name: &str, target: &str) -> (res: String)
    requires
        !has_whitespace(name@),
    ensures
        res@ == dynamic_lib_file(name@, target@),
        !spec_is_darwin(target@) && spec_is_windows(target@) ==> res@.len() == name@.len() as int + 4
            && res@.subrange(0, name@.len() as int) == name@ && res@.subrange(
            name@.len() as int,
            name@.len() as int + 4,
        ) == ".dll"@,
        spec_is_darwin(target@) ==> res@.len() == name@.len() as int + 9 && res@.subrange(0, 3) == "lib"@
            && res@.subrange(3, name@.len() as int + 3) == name@ && res@.subrange(name@.len() as int + 3, name@.len() as int + 9)
            == ".dylib"@,
        !spec_is_darwin(target@) && !spec_is_windows(target@) ==> res@.len() == name@.len() as int + 6
            && res@.subrange(0, 3) == "lib"@ && res@.subrange(3, name@.len() as int + 3) == name@
            && res@.subrange(name@.len() as int + 3, name@.len() as int + 6) == ".so"@,
{
    proof {
        lemma_dynamic_lib_name_layout(name@, target@);
    }
    let extension = dynamic_lib_extension(target);
    if is_darwin(target) {
        let mut s = "lib".to_owned();
        s.append(name);
        s.append(".");
        s.append(extension);
        s
    } else if is_windows(target) {
        let mut s = name.to_owned();
        s.append(".");
        s.append(extension);
        s
    } else {
        let mut s = "lib".to_owned();
        s.append(name);
        s.append(".");
        s.append(extension);
        s
    }
}

/// Generate the name a rust library (rlib) would have.
pub fn rust_lib_name(name: &str) -> (res: String)
    ensures
        res@ == rust_lib_file(name@),
        res@.len() == name@.len() as int + 8,
        res@.subrange(0, 3) == "lib"@,
        res@.subrange(3, name@.len() as int + 3) == name@,
        res@.subrange(name@.len() as int + 3, name@.len() as int + 8) == ".rlib"@,
{
    proof {
        lemma_rust_lib_name_layout(name@);
    }
    let mut s = "lib".to_owned();
    s.append(name);
    s.append(".rlib");
    s
}

/// Construct the binary name based on platform.
pub fn bin_name(name: &str, target: &str) -> (res: String)
    ensures
        res@ == bin_file(name@, target@),
        spec_is_windows(target@) ==> res@.len() == name@.len() as int + 4 && res@.subrange(0, name@.len() as int)
            == name@ && res@.subrange(name@.len() as int, name@.len() as int + 4) == ".exe"@,
        !spec_is_windows(target@) ==> res@ == name@,
{
    proof {
        lemma_bin_name_layout(name@, target@);
    }
    if is_windows(target) {
        let mut s = name.to_owned();
        s.append(".exe");
        s
    } else {
        name.to_owned()
    }
}


/// The files and the compiler flag involved in building the native static library
/// `lib_name` from `lib_name.c`.
#[derive(Debug)]
pub struct NativeStaticLibPlan {
    /// Whether the C compiler is asked for verbose output (`-v`).
    pub verbose: bool,
    /// The object file the C compiler is told to write.
    pub obj_file: String,
    /// The C source file.
    pub src: String,
    /// The object file handed to the archiver.
    pub archive_input: String,
    /// The static library the archiver writes.
    pub lib_path: String,
}

/// Works out, for `target`, the files and flags used to build the native static
/// library `lib_name` (`.lib` on Windows MSVC and `.a` for the rest).
pub fn native_static_lib_plan(lib_name: &str, target: &str) -> (res: NativeStaticLibPlan)
    requires
        !has_whitespace(lib_name@),
    ensures
        res.verbose == !spec_is_msvc(target@),
        res.obj_file@ == (if spec_is_msvc(target@) {
            lib_name@
        } else {
            lib_name@ + ".o"@
        }),
        res.src@ == lib_name@ + ".c"@,
        res.archive_input@ == (if spec_is_msvc(target@) {
            lib_name@ + ".obj"@
        } else {
            lib_name@ + ".o"@
        }),
        res.lib_path@ == static_lib_file(lib_name@, target@),
{
    let msvc = is_msvc(target);
    let obj_file = if msvc {
        lib_name.to_owned()
    } else {
        let mut s = lib_name.to_owned();
        s.append(".o");
        s
    };
    let mut src = lib_name.to_owned();
    src.append(".c");
    let lib_path = static_lib_name(lib_name, target);
    let mut archive_input = lib_name.to_owned();
    if msvc {
        archive_input.append(".obj");
    } else {
        archive_input.append(".o");
    }
    NativeStaticLibPlan { verbose: !msvc, obj_file, src, archive_input, lib_path }
}


/// The name of a rust library, for a crate name without `/`, is a file name of
/// its own, starts with `lib` and has the extension `rlib`.
pub proof fn lemma_rust_lib_name_shape(name: Seq<char>)
    requires
        no_separator(name, '/'),
    ensures
        text_file_name(rust_lib_file(name)) == Some(rust_lib_file(name)),
        "lib"@.is_prefix_of(rust_lib_file(name)),
        text_extension(rust_lib_file(name)) == Some("rlib"@),
{
    reveal_strlit("lib");
    reveal_strlit(".rlib");
    reveal_strlit("rlib");
    let a = "lib"@ + name;
    assert(no_separator(a, '/')) by {
        assert forall|i: int| 0 <= i < a.len() implies a[i] != '/' by {
            if i >= 3 {
                assert(a[i] == name[i - 3]);
            }
        }
    }
    assert(rust_lib_file(name) =~= a + seq!['.'] + "rlib"@);
    lemma_name_with_extension(a, "rlib"@, '/', '.');
    assert(rust_lib_file(name).subrange(0, 3) =~= "lib"@);
}

proof fn lemma_lib_prefixed_no_separator(name: Seq<char>)
    requires
        no_separator(name, '/'),
    ensures
        no_separator("lib"@ + name, '/'),
        ("lib"@ + name).len() > 0,
{
    reveal_strlit("lib");
    let a = "lib"@ + name;
    assert forall|i: int| 0 <= i < a.len() implies a[i] != '/' by {
        if i >= 3 {
            assert(a[i] == name[i - 3]);
        }
    }
}

/// The name of a static library, for a non-empty name without `/`, is a file
/// name of its own with the platform's extension: `lib` for MSVC, `a` elsewhere.
pub proof fn lemma_static_lib_name_extension(name: Seq<char>, target: Seq<char>)
    requires
        name.len() > 0,
        no_separator(name, '/'),
    ensures
        text_file_name(static_lib_file(name, target)) == Some(static_lib_file(name, target)),
        text_extension(static_lib_file(name, target)) == Some(
            if spec_is_msvc(target) {
                "lib"@
            } else {
                "a"@
            },
        ),
{
    reveal_strlit("lib");
    reveal_strlit(".lib");
    reveal_strlit("a");
    reveal_strlit(".a");
    if spec_is_msvc(target) {
        assert(static_lib_file(name, target) =~= name + seq!['.'] + "lib"@);
        lemma_name_with_extension(name, "lib"@, '/', '.');
    } else {
        lemma_lib_prefixed_no_separator(name);
        assert(static_lib_file(name, target) =~= ("lib"@ + name) + seq!['.'] + "a"@);
        lemma_name_with_extension("lib"@ + name, "a"@, '/', '.');
    }
}

/// The name of a dynamic library, for a non-empty name without `/`, is a file
/// name of its own with the platform's dynamic library extension.
pub proof fn lemma_dynamic_lib_name_extension(name: Seq<char>, target: Seq<char>)
    requires
        name.len() > 0,
        no_separator(name, '/'),
    ensures
        text_file_name(dynamic_lib_file(name, target)) == Some(dynamic_lib_file(name, target)),
        text_extension(dynamic_lib_file(name, target)) == Some(dynamic_lib_ext(target)),
{
    reveal_strlit("lib");
    reveal_strlit(".");
    reveal_strlit("dylib");
    reveal_strlit("dll");
    reveal_strlit("so");
    let e = dynamic_lib_ext(target);
    assert(e.len() > 0 && no_separator(e, '/') && forall|i: int| 0 <= i < e.len() ==> e[i] != '.');
    if spec_is_windows(target) && !spec_is_darwin(target) {
        assert(dynamic_lib_file(name, target) =~= name + seq!['.'] + e);
        lemma_name_with_extension(name, e, '/', '.');
    } else {
        lemma_lib_prefixed_no_separator(name);
        assert(dynamic_lib_file(name, target) =~= ("lib"@ + name) + seq!['.'] + e);
        lemma_name_with_extension("lib"@ + name, e, '/', '.');
    }
}

/// On Windows the name of a binary, for a non-empty name without `/`, has the
/// extension `exe`; elsewhere it is the name itself.
pub proof fn lemma_bin_name_extension(name: Seq<char>, target: Seq<char>)
    requires
        name.len() > 0,
        no_separator(name, '/'),
    ensures
        spec_is_windows(target) ==> text_extension(bin_file(name, target)) == Some("exe"@),
        !spec_is_windows(target) ==> bin_file(name, target) == name,
{
    reveal_strlit(".exe");
    reveal_strlit("exe");
    if spec_is_windows(target) {
        assert(bin_file(name, target) =~= name + seq!['.'] + "exe"@);
        lemma_name_with_extension(name, "exe"@, '/', '.');
    }
}


/// The rlib name of any crate name `name` is `lib`, then `name` itself (at index
/// 3), then `.rlib`: eight characters longer than `name`.
pub proof fn lemma_rust_lib_name_layout(name: Seq<char>)
    ensures
        rust_lib_file(name).len() == name.len() as int + 8,
        rust_lib_file(name).subrange(0, 3) == "lib"@,
        rust_lib_file(name).subrange(3, name.len() as int + 3) == name,
        rust_lib_file(name).subrange(name.len() as int + 3, name.len() as int + 8) == ".rlib"@,
{
    reveal_strlit("lib");
    reveal_strlit(".rlib");
    let f = rust_lib_file(name);
    assert(f.subrange(0, 3) =~= "lib"@);
    assert(f.subrange(3, name.len() as int + 3) =~= name);
    assert(f.subrange(name.len() as int + 3, name.len() as int + 8) =~= ".rlib"@);
}

/// The static library name of `name` is `name.lib` for MSVC, and `lib`, then
/// `name` (at index 3), then `.a` elsewhere.
pub proof fn lemma_static_lib_name_layout(name: Seq<char>, target: Seq<char>)
    ensures
        spec_is_msvc(target) ==> static_lib_file(name, target).len() == name.len() as int + 4
            && static_lib_file(name, target).subrange(0, name.len() as int) == name
            && static_lib_file(name, target).subrange(name.len() as int, name.len() as int + 4) == ".lib"@,
        !spec_is_msvc(target) ==> static_lib_file(name, target).len() == name.len() as int + 5
            && static_lib_file(name, target).subrange(0, 3) == "lib"@ && static_lib_file(
            name,
            target,
        ).subrange(3, name.len() as int + 3) == name && static_lib_file(name, target).subrange(
            name.len() as int + 3,
            name.len() as int + 5,
        ) == ".a"@,
{
    reveal_strlit("lib");
    reveal_strlit(".lib");
    reveal_strlit(".a");
    let f = static_lib_file(name, target);
    if spec_is_msvc(target) {
        assert(f.subrange(0, name.len() as int) =~= name);
        assert(f.subrange(name.len() as int, name.len() as int + 4) =~= ".lib"@);
    } else {
        assert(f.subrange(0, 3) =~= "lib"@);
        assert(f.subrange(3, name.len() as int + 3) =~= name);
        assert(f.subrange(name.len() as int + 3, name.len() as int + 5) =~= ".a"@);
    }
}

/// The dynamic library name of `name` is `libname.dylib` on macOS, `name.dll` on
/// other Windows-like targets and `libname.so` elsewhere, with `name` itself at
/// the place shown.
pub proof fn lemma_dynamic_lib_name_layout(name: Seq<char>, target: Seq<char>)
    ensures
        !spec_is_darwin(target) && spec_is_windows(target) ==> dynamic_lib_file(name, target).len()
            == name.len() as int + 4 && dynamic_lib_file(name, target).subrange(0, name.len() as int) == name
            && dynamic_lib_file(name, target).subrange(name.len() as int, name.len() as int + 4) == ".dll"@,
        spec_is_darwin(target) ==> dynamic_lib_file(name, target).len() == name.len() as int + 9
            && dynamic_lib_file(name, target).subrange(0, 3) == "lib"@ && dynamic_lib_file(
            name,
            target,
        ).subrange(3, name.len() as int + 3) == name && dynamic_lib_file(name, target).subrange(
            name.len() as int + 3,
            name.len() as int + 9,
        ) == ".dylib"@,
        !spec_is_darwin(target) && !spec_is_windows(target) ==> dynamic_lib_file(name, target).len()
            == name.len() as int + 6 && dynamic_lib_file(name, target).subrange(0, 3) == "lib"@
            && dynamic_lib_file(name, target).subrange(3, name.len() as int + 3) == name && dynamic_lib_file(
            name,
            target,
        ).subrange(name.len() as int + 3, name.len() as int + 6) == ".so"@,
{
    reveal_strlit("lib");
    reveal_strlit(".");
    reveal_strlit("dylib");
    reveal_strlit("dll");
    reveal_strlit("so");
    reveal_strlit(".dylib");
    reveal_strlit(".dll");
    reveal_strlit(".so");
    let f = dynamic_lib_file(name, target);
    if spec_is_darwin(target) {
        assert(f.subrange(0, 3) =~= "lib"@);
        assert(f.subrange(3, name.len() as int + 3) =~= name);
        assert(f.subrange(name.len() as int + 3, name.len() as int + 9) =~= ".dylib"@);
    } else if spec_is_windows(target) {
        assert(f.subrange(0, name.len() as int) =~= name);
        assert(f.subrange(name.len() as int, name.len() as int + 4) =~= ".dll"@);
    } else {
        assert(f.subrange(0, 3) =~= "lib"@);
        assert(f.subrange(3, name.len() as int + 3) =~= name);
        assert(f.subrange(name.len() as int + 3, name.len() as int + 6) =~= ".so"@);
    }
}

/// The binary name of `name` is `name.exe` on Windows-like targets and `name`
/// itself elsewhere.
pub proof fn lemma_bin_name_layout(name: Seq<char>, target: Seq<char>)
    ensures
        spec_is_windows(target) ==> bin_file(name, target).len() == name.len() as int + 4 && bin_file(
            name,
            target,
        ).subrange(0, name.len() as int) == name && bin_file(name, target).subrange(
            name.len() as int,
            name.len() as int + 4,
        ) == ".exe"@,
        !spec_is_windows(target) ==> bin_file(name, target) == name,
{
    reveal_strlit(".exe");
    let f = bin_file(name, target);
    if spec_is_windows(target) {
        assert(f.subrange(0, name.len() as int) =~= name);
        assert(f.subrange(name.len() as int, name.len() as int + 4) =~= ".exe"@);
    }
}

} // verus!

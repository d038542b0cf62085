//! What the extensions' build scripts decide: the header directories,
//! defines, flags and sources handed to the C++ compiler for each target,
//! which source files are compiled or watched, where the SDK libraries
//! are, and the Rust text generated from a plugin header file. The build
//! scripts read the environment and the file system, run the compiler and
//! write the files.

use vstd::prelude::*;
use vstd::string::*;
use crate::cstr::{concat_text, text_bytes};
use crate::json::value::bytes_copy;
use crate::ws::{decimal, decimal_text};

verus! {

/// One thing handed to the compiler's configuration, or to the build tool.
#[derive(Debug)]
pub enum BuildStep {
    HeaderDir(Vec<u8>),
    /// A preprocessor definition, with its value if it has one.
    Define(Vec<u8>, Option<Vec<u8>>),
    Flag(Vec<u8>),
    /// A flag passed only where the compiler supports it.
    FlagIfSupported(Vec<u8>),
    /// A source file to compile.
    File(Vec<u8>),
    Cpp(bool),
    StaticCrt(bool),
    /// A path whose change reruns the build script.
    Rerun(Vec<u8>),
}

/// A build step as plain values.
pub enum Step {
    HeaderDir(Seq<u8>),
    Define(Seq<u8>, Option<Seq<u8>>),
    Flag(Seq<u8>),
    FlagIfSupported(Seq<u8>),
    File(Seq<u8>),
    Cpp(bool),
    StaticCrt(bool),
    Rerun(Seq<u8>),
}

impl View for BuildStep {
    type V = Step;

    open spec fn view(&self) -> Step {
        match self {
            BuildStep::HeaderDir(x) => Step::HeaderDir(x@),
            BuildStep::Define(n, v) => Step::Define(n@, match v { Some(x) => Some(x@), None => None }),
            BuildStep::Flag(x) => Step::Flag(x@),
            BuildStep::FlagIfSupported(x) => Step::FlagIfSupported(x@),
            BuildStep::File(x) => Step::File(x@),
            BuildStep::Cpp(b) => Step::Cpp(*b),
            BuildStep::StaticCrt(b) => Step::StaticCrt(*b),
            BuildStep::Rerun(x) => Step::Rerun(x@),
        }
    }
}

/// The steps of a list.
pub open spec fn steps(v: Seq<BuildStep>) -> Seq<Step> {
    v.map_values(|s: BuildStep| s@)
}

/// The platform a build is for: whether the compiler is MSVC-like,
/// whether the target is Windows, and whether it is 64-bit.
#[derive(Clone, Copy, Debug, PartialEq, Eq, Structural)]
pub struct BuildTarget {
    pub like_msvc: bool,
    pub target_windows: bool,
    pub is_x64: bool,
}

/// The target from the build tool's values: the pointer width is 64 and
/// the target's OS is windows.
pub fn build_target(like_msvc: bool, pointer_width: &[u8], target_os: &[u8]) -> (r: BuildTarget)
    ensures
        r.like_msvc == like_msvc,
        r.is_x64 == (pointer_width@ == "64".spec_bytes()),
        r.target_windows == (target_os@ == "windows".spec_bytes()),
{
    let w = text_bytes("64");
    let o = text_bytes("windows");
    BuildTarget {
        like_msvc,
        target_windows: crate::json::value::bytes_equal(target_os, o.as_slice()),
        is_x64: crate::json::value::bytes_equal(pointer_width, w.as_slice()),
    }
}

pub open spec fn header_dir_s(base: Seq<u8>, suffix: &str) -> Step {
    Step::HeaderDir(base + suffix.spec_bytes())
}

pub open spec fn define_s(name: &str) -> Step {
    Step::Define(name.spec_bytes(), None)
}

pub open spec fn define_to_s(name: &str, value: &str) -> Step {
    Step::Define(name.spec_bytes(), Some(value.spec_bytes()))
}

pub open spec fn flag_s(f: &str) -> Step {
    Step::Flag(f.spec_bytes())
}

pub open spec fn flag_if_s(f: &str) -> Step {
    Step::FlagIfSupported(f.spec_bytes())
}

pub open spec fn file_s(base: Seq<u8>, suffix: &str) -> Step {
    Step::File(base + suffix.spec_bytes())
}

fn header_dir(base: &[u8], suffix: &str) -> (r: BuildStep)
    ensures
        r@ == header_dir_s(base@, suffix),
{
    BuildStep::HeaderDir(concat_text(base, suffix))
}

fn define(name: &str) -> (r: BuildStep)
    ensures
        r@ == define_s(name),
{
    BuildStep::Define(text_bytes(name), None)
}

fn define_to(name: &str, value: &str) -> (r: BuildStep)
    ensures
        r@ == define_to_s(name, value),
{
    BuildStep::Define(text_bytes(name), Some(text_bytes(value)))
}

fn flag(f: &str) -> (r: BuildStep)
    ensures
        r@ == flag_s(f),
{
    BuildStep::Flag(text_bytes(f))
}

fn flag_if(f: &str) -> (r: BuildStep)
    ensures
        r@ == flag_if_s(f),
{
    BuildStep::FlagIfSupported(text_bytes(f))
}

fn file(base: &[u8], suffix: &str) -> (r: BuildStep)
    ensures
        r@ == file_s(base@, suffix),
{
    BuildStep::File(concat_text(base, suffix))
}

fn push_step(v: &mut Vec<BuildStep>, s: BuildStep)
    ensures
        steps(final(v)@) == steps(old(v)@).push(s@),
{
    let ghost sv = s@;
    v.push(s);
    assert(steps(v@) =~= steps(old(v)@).push(sv));
}

fn append_steps(v: &mut Vec<BuildStep>, w: Vec<BuildStep>)
    ensures
        steps(final(v)@) == steps(old(v)@) + steps(w@),
{
    let mut w = w;
    let ghost wv = w@;
    v.append(&mut w);
    assert(steps(v@) =~= steps(old(v)@) + steps(wv));
}

fn no_steps() -> (r: Vec<BuildStep>)
    ensures
        steps(r@) == Seq::<Step>::empty(),
{
    let v: Vec<BuildStep> = Vec::new();
    assert(steps(v@) =~= Seq::<Step>::empty());
    v
}

/// Whether `s` ends with the bytes of `suffix`.
pub open spec fn ends_with(s: Seq<u8>, suffix: &str) -> bool {
    s.len() >= suffix.spec_bytes().len() && s.subrange(s.len() - suffix.spec_bytes().len(), s.len() as int) == suffix.spec_bytes()
}

fn ends_with_exec(s: &[u8], suffix: &str) -> (r: bool)
    ensures
        r == ends_with(s@, suffix),
{
    let t = text_bytes(suffix);
    if s.len() < t.len() {
        return false;
    }
    let start = s.len() - t.len();
    let mut i: usize = 0;
    while i < t.len()
        invariant
            start + t@.len() == s@.len(),
            s@.len() == s.len(),
            i <= t@.len(),
            t@ == suffix.spec_bytes(),
            forall|j: int| 0 <= j < i ==> s@[start + j] == t@[j],
        decreases t.len() - i,
    {
        if s[start + i] != t[i] {
            assert(s@.subrange(start as int, s@.len() as int)[i as int] != t@[i as int]);
            return false;
        }
        i += 1;
    }
    assert(s@.subrange(start as int, s@.len() as int) =~= t@);
    true
}

/// A C or C++ source file, which is compiled.
pub open spec fn is_compiled_source(name: Seq<u8>) -> bool {
    ends_with(name, ".cpp") || ends_with(name, ".c")
}

/// A source or header file, whose change reruns the build script.
pub open spec fn is_watched_source(name: Seq<u8>) -> bool {
    ends_with(name, ".cpp") || ends_with(name, ".hpp") || ends_with(name, ".h") || ends_with(name, ".c")
}

/// Whether a file name is that of a source file that is compiled.
pub fn compiled_source(name: &[u8]) -> (r: bool)
    ensures
        r == is_compiled_source(name@),
{
    ends_with_exec(name, ".cpp") || ends_with_exec(name, ".c")
}

/// Whether a file name is that of a source or header file, which is watched.
pub fn watched_source(name: &[u8]) -> (r: bool)
    ensures
        r == is_watched_source(name@),
{
    ends_with_exec(name, ".cpp") || ends_with_exec(name, ".hpp") || ends_with_exec(name, ".h") || ends_with_exec(name, ".c")
}

/// A source file that is compiled is also watched, in a folder as on its own.
pub proof fn law_compiled_sources_are_watched(name: Seq<u8>)
    ensures
        is_compiled_source(name) ==> is_watched_source(name),
        is_compiled_source(name) ==> single_file_s(name)[0] == Step::Rerun(name),
{
}

/// The steps for one file (`slurp_single_file`): it is watched, and
/// compiled when it is a source file.
pub open spec fn single_file_s(path: Seq<u8>) -> Seq<Step> {
    if is_compiled_source(path) {
        seq![Step::Rerun(path), Step::File(path)]
    } else {
        seq![Step::Rerun(path)]
    }
}

/// The steps for one file.
pub fn slurp_single_file(path: &[u8]) -> (r: Vec<BuildStep>)
    ensures
        steps(r@) == single_file_s(path@),
{
    let mut v = no_steps();
    push_step(&mut v, BuildStep::Rerun(bytes_copy(path)));
    if compiled_source(path) {
        push_step(&mut v, BuildStep::File(bytes_copy(path)));
    }
    v
}

/// `dir/name`.
pub open spec fn path_join(dir: Seq<u8>, name: Seq<u8>) -> Seq<u8> {
    dir + seq![47u8] + name
}

/// The steps for one entry of a folder (`slurp_folder`): source and
/// header files are watched, source files compiled; others are skipped.
pub open spec fn folder_entry_s(dir: Seq<u8>, name: Seq<u8>) -> Seq<Step> {
    if !is_watched_source(name) {
        Seq::empty()
    } else if is_compiled_source(name) {
        seq![Step::Rerun(path_join(dir, name)), Step::File(path_join(dir, name))]
    } else {
        seq![Step::Rerun(path_join(dir, name))]
    }
}

/// The steps for one entry of a folder.
pub fn slurp_folder_entry(dir: &[u8], name: &[u8]) -> (r: Vec<BuildStep>)
    ensures
        steps(r@) == folder_entry_s(dir@, name@),
{
    let mut v = no_steps();
    if !watched_source(name) {
        return v;
    }
    let mut full = bytes_copy(dir);
    full.push(47u8);
    let mut n = bytes_copy(name);
    full.append(&mut n);
    assert(full@ =~= path_join(dir@, name@));
    let compiled = compiled_source(name);
    if compiled {
        push_step(&mut v, BuildStep::Rerun(bytes_copy(full.as_slice())));
        push_step(&mut v, BuildStep::File(full));
    } else {
        push_step(&mut v, BuildStep::Rerun(full));
    }
    v
}

/// The name of the SDKs' header directories, as bytes.
pub open spec fn headers_name() -> Seq<u8> {
    seq![105u8, 110u8, 99u8, 108u8, 117u8, 100u8, 101u8]
}

fn headers_name_exec() -> (r: Vec<u8>)
    ensures
        r@ == headers_name(),
{
    let v: Vec<u8> = vec![105u8, 110u8, 99u8, 108u8, 117u8, 100u8, 101u8];
    assert(v@ =~= headers_name());
    v
}

/// `base`, then the bytes of `mid`, then the header directories' name.
pub open spec fn headers_under(base: Seq<u8>, mid: &str) -> Seq<u8> {
    base + mid.spec_bytes() + headers_name()
}

fn headers_under_exec(base: &[u8], mid: &str) -> (r: Vec<u8>)
    ensures
        r@ == headers_under(base@, mid),
{
    let mut v = concat_text(base, mid);
    let mut h = headers_name_exec();
    v.append(&mut h);
    v
}

/// Where SourceMod is when the environment does not say.
pub open spec fn default_sourcemod_s(root: Seq<u8>) -> Seq<u8> {
    root + "/_external/alliedmodders/sourcemod".spec_bytes()
}

/// Where Metamod:Source is when the environment does not say.
pub open spec fn default_metamod_s(root: Seq<u8>) -> Seq<u8> {
    root + "/_external/alliedmodders/mmsource".spec_bytes()
}

/// Where a game's SDK is when the environment does not say.
pub open spec fn default_sdk_s(root: Seq<u8>, sdk_name: Seq<u8>) -> Seq<u8> {
    root + "/_external/alliedmodders/hl2sdk-".spec_bytes() + sdk_name
}

/// The default SourceMod directory under the project's root.
pub fn default_sourcemod(root: &[u8]) -> (r: Vec<u8>)
    ensures
        r@ == default_sourcemod_s(root@),
{
    concat_text(root, "/_external/alliedmodders/sourcemod")
}

/// The default Metamod:Source directory under the project's root.
pub fn default_metamod(root: &[u8]) -> (r: Vec<u8>)
    ensures
        r@ == default_metamod_s(root@),
{
    concat_text(root, "/_external/alliedmodders/mmsource")
}

/// The default directory of a game's SDK under the project's root.
pub fn default_sdk(root: &[u8], sdk_name: &[u8]) -> (r: Vec<u8>)
    ensures
        r@ == default_sdk_s(root@, sdk_name@),
{
    let mut v = concat_text(root, "/_external/alliedmodders/hl2sdk-");
    let mut n = bytes_copy(sdk_name);
    v.append(&mut n);
    v
}

/// The shared files whose change reruns every extension's build.
pub open spec fn smext_reruns_s(root: Seq<u8>) -> Seq<Step> {
    seq![
        Step::Rerun(root + "/extshared/src/coreident.cpp".spec_bytes()),
        Step::Rerun(root + "/extshared/src/coreident.hpp".spec_bytes()),
        Step::Rerun(root + "/extshared/src/extension.cpp".spec_bytes()),
        Step::Rerun(root + "/extshared/src/extension.h".spec_bytes()),
        Step::Rerun(root + "/extshared/src/rust_exports.h".spec_bytes()),
        Step::Rerun(root + "/extshared/src/smsdk_config.h".spec_bytes()),
    ]
}

/// The configuration every extension shares: SourceMod's and
/// Metamod:Source's headers, the shared sources, C++ with a static runtime.
pub open spec fn smext_common_s(root: Seq<u8>, sm: Seq<u8>, mm: Seq<u8>) -> Seq<Step> {
    seq![
        define_s("SM_LOGIC"),
        define_s("GAME_DLL"),
        header_dir_s(sm, "/core"),
        header_dir_s(sm, "/public"),
        header_dir_s(sm, "/public/extensions"),
        Step::HeaderDir(headers_under(sm, "/sourcepawn/")),
        header_dir_s(sm, "/public/amtl/amtl"),
        header_dir_s(sm, "/public/amtl"),
        header_dir_s(mm, "/core"),
        header_dir_s(mm, "/core/sourcehook"),
        header_dir_s(root, "/extshared/src"),
        file_s(root, "/extshared/src/coreident.cpp"),
        file_s(root, "/extshared/src/extension.cpp"),
        file_s(sm, "/public/smsdk_ext.cpp"),
        Step::Cpp(true),
        Step::StaticCrt(true),
    ]
}

/// The compiler's flags for an extension.
pub open spec fn smext_compiler_s(t: BuildTarget) -> Seq<Step> {
    if t.like_msvc {
        msvc_arch_s(t) + msvc_flags_s()
    } else {
        gcc_arch_s(t) + gcc_flags_s()
    }
}

/// An MSVC-like compiler's architecture settings.
pub open spec fn msvc_arch_s(t: BuildTarget) -> Seq<Step> {
    if t.is_x64 {
        seq![flag_s("/d2archSSE42"), define_to_s("COMPILER_MSVC64", "1")]
    } else {
        seq![define_to_s("COMPILER_MSVC32", "1")]
    }
}

/// An MSVC-like compiler's defines and flags.
pub open spec fn msvc_flags_s() -> Seq<Step> {
    seq![
        define_to_s("COMPILER_MSVC", "1"),
        flag_s("/std:c++latest"),
        flag_s("/Zi"),
        flag_s("/FS"),
        flag_s("/wd4100"),
        flag_s("/EHsc"),
        flag_s("/Oy-"),
    ]
}

/// A GCC-like compiler's architecture flags.
pub open spec fn gcc_arch_s(t: BuildTarget) -> Seq<Step> {
    if t.is_x64 {
        seq![flag_s("-mcpu=x86_64_v2")]
    } else {
        seq![flag_s("-msse"), flag_s("-m32")]
    }
}

/// The defines and warnings of a GCC-like compiler.
pub open spec fn gcc_flags_s() -> Seq<Step> {
    seq![
        define_s("HAVE_STDINT_H"),
        define_s("GNUC"),
        define_to_s("COMPILER_GCC", "1"),
        flag_s("-std=c++23"),
        flag_s("-Wno-unknown-pragmas"),
        flag_s("-Wno-dangling-else"),
        flag_s("-Wno-deprecated-volatile"),
        flag_s("-Wno-non-virtual-dtor"),
        flag_s("-Wno-overloaded-virtual"),
        flag_s("-Wno-implicit-exception-spec-mismatch"),
        flag_s("-fno-threadsafe-statics"),
        flag_s("-fvisibility-inlines-hidden"),
        flag_s("-Wno-deprecated-copy-with-user-provided-copy"),
        flag_s("-Wno-implicit-const-int-float-conversion"),
        flag_s("-Wno-expansion-to-defined"),
        flag_s("-Wno-inconsistent-missing-override"),
        flag_s("-Wno-narrowing"),
        flag_s("-Wno-delete-non-virtual-dtor"),
        flag_s("-Wno-unused-result"),
        flag_s("-Wno-implicit-exception-spec-mismatch"),
        flag_s("-Wno-deprecated-register"),
        flag_s("-Wno-sometimes-uninitialized"),
        flag_if_s("-Wno-unused"),
        flag_if_s("-Wno-unused-parameter"),
    ]
}

/// The operating system's defines for an extension.
pub open spec fn smext_os_s(t: BuildTarget) -> Seq<Step> {
    if t.target_windows {
        (if t.is_x64 { seq![define_s("WIN64")] } else { Seq::empty() })
            + seq![define_s("_CRT_SECURE_NO_WARNINGS"), define_s("WIN32"), define_s("_WINDOWS")]
    } else {
        seq![define_s("_LINUX"), define_s("LINUX"), define_to_s("GetSMExtAPI", "GetSMExtAPIxxx"), define_s("POSIX")]
    }
}

/// An extension's build (`smext_build`), before the entries of its own
/// source folder: the shared files watched, then the common configuration,
/// the compiler's flags and the operating system's defines.
pub open spec fn smext_build_s(root: Seq<u8>, sm: Seq<u8>, mm: Seq<u8>, t: BuildTarget) -> Seq<Step> {
    smext_reruns_s(root) + smext_common_s(root, sm, mm) + smext_compiler_s(t) + smext_os_s(t)
}

fn smext_reruns(root: &[u8]) -> (r: Vec<BuildStep>)
    ensures
        steps(r@) == smext_reruns_s(root@),
{
    let mut v = no_steps();
    push_step(&mut v, BuildStep::Rerun(concat_text(root, "/extshared/src/coreident.cpp")));
    push_step(&mut v, BuildStep::Rerun(concat_text(root, "/extshared/src/coreident.hpp")));
    push_step(&mut v, BuildStep::Rerun(concat_text(root, "/extshared/src/extension.cpp")));
    push_step(&mut v, BuildStep::Rerun(concat_text(root, "/extshared/src/extension.h")));
    push_step(&mut v, BuildStep::Rerun(concat_text(root, "/extshared/src/rust_exports.h")));
    push_step(&mut v, BuildStep::Rerun(concat_text(root, "/extshared/src/smsdk_config.h")));
    v
}

fn smext_common(root: &[u8], sm: &[u8], mm: &[u8]) -> (r: Vec<BuildStep>)
    ensures
        steps(r@) == smext_common_s(root@, sm@, mm@),
{
    let mut v = no_steps();
    push_step(&mut v, define("SM_LOGIC"));
    push_step(&mut v, define("GAME_DLL"));
    push_step(&mut v, header_dir(sm, "/core"));
    push_step(&mut v, header_dir(sm, "/public"));
    push_step(&mut v, header_dir(sm, "/public/extensions"));
    push_step(&mut v, BuildStep::HeaderDir(headers_under_exec(sm, "/sourcepawn/")));
    push_step(&mut v, header_dir(sm, "/public/amtl/amtl"));
    push_step(&mut v, header_dir(sm, "/public/amtl"));
    push_step(&mut v, header_dir(mm, "/core"));
    push_step(&mut v, header_dir(mm, "/core/sourcehook"));
    push_step(&mut v, header_dir(root, "/extshared/src"));
    push_step(&mut v, file(root, "/extshared/src/coreident.cpp"));
    push_step(&mut v, file(root, "/extshared/src/extension.cpp"));
    push_step(&mut v, file(sm, "/public/smsdk_ext.cpp"));
    push_step(&mut v, BuildStep::Cpp(true));
    push_step(&mut v, BuildStep::StaticCrt(true));
    v
}

fn gcc_flags() -> (r: Vec<BuildStep>)
    ensures
        steps(r@) == gcc_flags_s(),
{
    let mut v = no_steps();
    push_step(&mut v, define("HAVE_STDINT_H"));
    push_step(&mut v, define("GNUC"));
    push_step(&mut v, define_to("COMPILER_GCC", "1"));
    push_step(&mut v, flag("-std=c++23"));
    push_step(&mut v, flag("-Wno-unknown-pragmas"));
    push_step(&mut v, flag("-Wno-dangling-else"));
    push_step(&mut v, flag("-Wno-deprecated-volatile"));
    push_step(&mut v, flag("-Wno-non-virtual-dtor"));
    push_step(&mut v, flag("-Wno-overloaded-virtual"));
    push_step(&mut v, flag("-Wno-implicit-exception-spec-mismatch"));
    push_step(&mut v, flag("-fno-threadsafe-statics"));
    push_step(&mut v, flag("-fvisibility-inlines-hidden"));
    push_step(&mut v, flag("-Wno-deprecated-copy-with-user-provided-copy"));
    push_step(&mut v, flag("-Wno-implicit-const-int-float-conversion"));
    push_step(&mut v, flag("-Wno-expansion-to-defined"));
    push_step(&mut v, flag("-Wno-inconsistent-missing-override"));
    push_step(&mut v, flag("-Wno-narrowing"));
    push_step(&mut v, flag("-Wno-delete-non-virtual-dtor"));
    push_step(&mut v, flag("-Wno-unused-result"));
    push_step(&mut v, flag("-Wno-implicit-exception-spec-mismatch"));
    push_step(&mut v, flag("-Wno-deprecated-register"));
    push_step(&mut v, flag("-Wno-sometimes-uninitialized"));
    push_step(&mut v, flag_if("-Wno-unused"));
    push_step(&mut v, flag_if("-Wno-unused-parameter"));
    v
}

fn msvc_arch(t: BuildTarget) -> (r: Vec<BuildStep>)
    ensures
        steps(r@) == msvc_arch_s(t),
{
    let mut v = no_steps();
    if t.is_x64 {
        push_step(&mut v, flag("/d2archSSE42"));
        push_step(&mut v, define_to("COMPILER_MSVC64", "1"));
    } else {
        push_step(&mut v, define_to("COMPILER_MSVC32", "1"));
    }
    v
}

fn msvc_flags() -> (r: Vec<BuildStep>)
    ensures
        steps(r@) == msvc_flags_s(),
{
    let mut v = no_steps();
    push_step(&mut v, define_to("COMPILER_MSVC", "1"));
    push_step(&mut v, flag("/std:c++latest"));
    push_step(&mut v, flag("/Zi"));
    push_step(&mut v, flag("/FS"));
    push_step(&mut v, flag("/wd4100"));
    push_step(&mut v, flag("/EHsc"));
    push_step(&mut v, flag("/Oy-"));
    v
}

fn gcc_arch(t: BuildTarget) -> (r: Vec<BuildStep>)
    ensures
        steps(r@) == gcc_arch_s(t),
{
    let mut v = no_steps();
    if t.is_x64 {
        push_step(&mut v, flag("-mcpu=x86_64_v2"));
    } else {
        push_step(&mut v, flag("-msse"));
        push_step(&mut v, flag("-m32"));
    }
    v
}

fn smext_compiler(t: BuildTarget) -> (r: Vec<BuildStep>)
    ensures
        steps(r@) == smext_compiler_s(t),
{
    if t.like_msvc {
        let mut v = msvc_arch(t);
        append_steps(&mut v, msvc_flags());
        v
    } else {
        let mut v = gcc_arch(t);
        append_steps(&mut v, gcc_flags());
        v
    }
}

fn smext_os(t: BuildTarget) -> (r: Vec<BuildStep>)
    ensures
        steps(r@) == smext_os_s(t),
{
    let mut v = no_steps();
    if t.target_windows {
        if t.is_x64 {
            push_step(&mut v, define("WIN64"));
        }
        let mut w = no_steps();
        push_step(&mut w, define("_CRT_SECURE_NO_WARNINGS"));
        push_step(&mut w, define("WIN32"));
        push_step(&mut w, define("_WINDOWS"));
        append_steps(&mut v, w);
        assert(t.is_x64 || steps(v@) =~= smext_os_s(t));
    } else {
        push_step(&mut v, define("_LINUX"));
        push_step(&mut v, define("LINUX"));
        push_step(&mut v, define_to("GetSMExtAPI", "GetSMExtAPIxxx"));
        push_step(&mut v, define("POSIX"));
    }
    v
}

/// An extension's build steps, before the entries of its source folder.
pub fn smext_build(root: &[u8], sm: &[u8], mm: &[u8], t: BuildTarget) -> (r: Vec<BuildStep>)
    ensures
        steps(r@) == smext_build_s(root@, sm@, mm@, t),
{
    let mut v = smext_reruns(root);
    append_steps(&mut v, smext_common(root, sm, mm));
    append_steps(&mut v, smext_compiler(t));
    append_steps(&mut v, smext_os(t));
    v
}

/// `s` with its ASCII lowercase letters made uppercase.
pub open spec fn ascii_upper(s: Seq<u8>) -> Seq<u8> {
    Seq::new(s.len(), |i: int| if 97 <= s[i] <= 122 { (s[i] - 32) as u8 } else { s[i] })
}

fn ascii_upper_exec(s: &[u8]) -> (r: Vec<u8>)
    ensures
        r@ == ascii_upper(s@),
{
    let mut out: Vec<u8> = Vec::new();
    let mut i: usize = 0;
    while i < s.len()
        invariant
            i <= s@.len(),
            out@ == ascii_upper(s@).take(i as int),
        decreases s.len() - i,
    {
        let b = s[i];
        let u: u8 = if 97 <= b && b <= 122 { b - 32 } else { b };
        out.push(u);
        i += 1;
        assert(out@ =~= ascii_upper(s@).take(i as int));
    }
    assert(ascii_upper(s@).take(s@.len() as int) =~= ascii_upper(s@));
    out
}

/// A game whose SDK the extensions build against.
#[derive(Clone, Copy, Debug, PartialEq, Eq, Structural)]
pub enum Game {
    Css,
    Tf2,
}

/// The SDK's name and engine number of a game (`smext_css`, `smext_tf2`).
pub fn game_sdk(g: Game) -> (r: (Vec<u8>, usize))
    ensures
        g == Game::Css ==> r.0@ == "css".spec_bytes() && r.1 == 6,
        g == Game::Tf2 ==> r.0@ == "tf2".spec_bytes() && r.1 == 12,
{
    match g {
        Game::Css => (text_bytes("css"), 6),
        Game::Tf2 => (text_bytes("tf2"), 12),
    }
}

/// The SDK's header directories.
pub open spec fn sdk_dirs_s(sdk: Seq<u8>) -> Seq<Step> {
    seq![
        header_dir_s(sdk, "/public"),
        header_dir_s(sdk, "/public/engine"),
        header_dir_s(sdk, "/public/mathlib"),
        header_dir_s(sdk, "/public/vstdlib"),
        header_dir_s(sdk, "/public/tier0"),
        header_dir_s(sdk, "/public/tier1"),
        header_dir_s(sdk, "/public/game/server"),
        header_dir_s(sdk, "/public/toolframework"),
        header_dir_s(sdk, "/game/shared"),
        header_dir_s(sdk, "/game/server"),
        header_dir_s(sdk, "/common"),
    ]
}

/// The game's defines: the engine number under `SE_<NAME>` and
/// `SOURCE_ENGINE`.
pub open spec fn sdk_defines_s(sdk_name: Seq<u8>, sdk_id: nat) -> Seq<Step> {
    seq![
        define_s("GAME_DLL"),
        Step::Define("SE_".spec_bytes() + ascii_upper(sdk_name), Some(decimal(sdk_id))),
        Step::Define("SOURCE_ENGINE".spec_bytes(), Some(decimal(sdk_id))),
    ]
}

/// The SDK's defines off Windows.
pub open spec fn sdk_os_s(t: BuildTarget) -> Seq<Step> {
    if t.target_windows {
        Seq::empty()
    } else {
        seq![define_s("NO_HOOK_MALLOC"), define_s("NO_MALLOC_OVERRIDE"), define_s("LINUX")]
    }
}

/// The SDK's compiler defines.
pub open spec fn sdk_compiler_s(t: BuildTarget) -> Seq<Step> {
    if t.like_msvc {
        (if t.is_x64 {
            seq![define_to_s("COMPILER_MSVC64", "1")]
        } else {
            seq![define_to_s("COMPILER_MSVC32", "1")]
        }) + seq![define_to_s("COMPILER_MSVC", "1")]
    } else {
        seq![define_to_s("COMPILER_GCC", "1")]
    }
}

/// The build steps for a game's SDK (`smext_hl2sdk_for_good_games`).
pub open spec fn sdk_steps_s(sdk: Seq<u8>, sdk_name: Seq<u8>, sdk_id: nat, t: BuildTarget) -> Seq<Step> {
    sdk_dirs_s(sdk) + sdk_defines_s(sdk_name, sdk_id) + sdk_os_s(t) + sdk_compiler_s(t)
}

/// Where the SDK's libraries for the target are.
pub open spec fn sdk_lib_folder_s(sdk: Seq<u8>, t: BuildTarget) -> Seq<u8> {
    if t.target_windows {
        if t.is_x64 { sdk + "/lib/public/x64".spec_bytes() } else { sdk + "/lib/public/x86".spec_bytes() }
    } else {
        if t.is_x64 { sdk + "/lib/public/linux64".spec_bytes() } else { sdk + "/lib/public/linux".spec_bytes() }
    }
}

/// The SDK's libraries to link: four on Windows, none elsewhere.
pub open spec fn sdk_links_s(t: BuildTarget) -> Seq<Seq<u8>> {
    if t.target_windows {
        seq!["tier0".spec_bytes(), "tier1".spec_bytes(), "vstdlib".spec_bytes(), "mathlib".spec_bytes()]
    } else {
        Seq::empty()
    }
}

/// What a game's SDK adds to a build.
#[derive(Debug)]
pub struct SdkPlan {
    pub steps: Vec<BuildStep>,
    pub lib_folder: Vec<u8>,
    pub links: Vec<Vec<u8>>,
}

fn sdk_dirs(sdk: &[u8]) -> (r: Vec<BuildStep>)
    ensures
        steps(r@) == sdk_dirs_s(sdk@),
{
    let mut v = no_steps();
    push_step(&mut v, header_dir(sdk, "/public"));
    push_step(&mut v, header_dir(sdk, "/public/engine"));
    push_step(&mut v, header_dir(sdk, "/public/mathlib"));
    push_step(&mut v, header_dir(sdk, "/public/vstdlib"));
    push_step(&mut v, header_dir(sdk, "/public/tier0"));
    push_step(&mut v, header_dir(sdk, "/public/tier1"));
    push_step(&mut v, header_dir(sdk, "/public/game/server"));
    push_step(&mut v, header_dir(sdk, "/public/toolframework"));
    push_step(&mut v, header_dir(sdk, "/game/shared"));
    push_step(&mut v, header_dir(sdk, "/game/server"));
    push_step(&mut v, header_dir(sdk, "/common"));
    v
}

fn sdk_defines(sdk_name: &[u8], sdk_id: usize) -> (r: Vec<BuildStep>)
    ensures
        steps(r@) == sdk_defines_s(sdk_name@, sdk_id as nat),
{
    let mut v = no_steps();
    push_step(&mut v, define("GAME_DLL"));
    let mut se = text_bytes("SE_");
    let mut up = ascii_upper_exec(sdk_name);
    se.append(&mut up);
    push_step(&mut v, BuildStep::Define(se, Some(decimal_text(sdk_id as u64))));
    push_step(&mut v, BuildStep::Define(text_bytes("SOURCE_ENGINE"), Some(decimal_text(sdk_id as u64))));
    v
}

fn sdk_os(t: BuildTarget) -> (r: Vec<BuildStep>)
    ensures
        steps(r@) == sdk_os_s(t),
{
    let mut v = no_steps();
    if !t.target_windows {
        push_step(&mut v, define("NO_HOOK_MALLOC"));
        push_step(&mut v, define("NO_MALLOC_OVERRIDE"));
        push_step(&mut v, define("LINUX"));
    }
    v
}

fn sdk_compiler(t: BuildTarget) -> (r: Vec<BuildStep>)
    ensures
        steps(r@) == sdk_compiler_s(t),
{
    let mut v = no_steps();
    if t.like_msvc {
        if t.is_x64 {
            push_step(&mut v, define_to("COMPILER_MSVC64", "1"));
        } else {
            push_step(&mut v, define_to("COMPILER_MSVC32", "1"));
        }
        let mut w = no_steps();
        push_step(&mut w, define_to("COMPILER_MSVC", "1"));
        append_steps(&mut v, w);
    } else {
        push_step(&mut v, define_to("COMPILER_GCC", "1"));
    }
    v
}

fn sdk_lib_folder(sdk: &[u8], t: BuildTarget) -> (r: Vec<u8>)
    ensures
        r@ == sdk_lib_folder_s(sdk@, t),
{
    if t.target_windows {
        if t.is_x64 { concat_text(sdk, "/lib/public/x64") } else { concat_text(sdk, "/lib/public/x86") }
    } else {
        if t.is_x64 { concat_text(sdk, "/lib/public/linux64") } else { concat_text(sdk, "/lib/public/linux") }
    }
}

fn sdk_links(t: BuildTarget) -> (r: Vec<Vec<u8>>)
    ensures
        r.deep_view() == sdk_links_s(t),
{
    let mut links: Vec<Vec<u8>> = Vec::new();
    if t.target_windows {
        let a = text_bytes("tier0");
        let b = text_bytes("tier1");
        let c = text_bytes("vstdlib");
        let d = text_bytes("mathlib");
        links.push(a);
        links.push(b);
        links.push(c);
        links.push(d);
        assert(links.deep_view() =~= sdk_links_s(t)) by {
            assert(links.deep_view()[0] == a@);
            assert(links.deep_view()[1] == b@);
            assert(links.deep_view()[2] == c@);
            assert(links.deep_view()[3] == d@);
        }
    } else {
        assert(links.deep_view() =~= sdk_links_s(t));
    }
    links
}

/// What a game's SDK adds to a build: its steps, the folder of its
/// libraries for the target, and the libraries to link.
pub fn hl2sdk_plan(sdk: &[u8], sdk_name: &[u8], sdk_id: usize, t: BuildTarget) -> (r: SdkPlan)
    ensures
        steps(r.steps@) == sdk_steps_s(sdk@, sdk_name@, sdk_id as nat, t),
        r.lib_folder@ == sdk_lib_folder_s(sdk@, t),
        !t.target_windows ==> r.lib_folder@.len() == sdk@.len() + if t.is_x64 { 19int } else { 17int },
        r.links.deep_view() == sdk_links_s(t),
{
    proof { law_sdk_lib_folder(sdk@, t); }
    let mut v = sdk_dirs(sdk);
    append_steps(&mut v, sdk_defines(sdk_name, sdk_id));
    append_steps(&mut v, sdk_os(t));
    append_steps(&mut v, sdk_compiler(t));
    let lib_folder = sdk_lib_folder(sdk, t);
    let links = sdk_links(t);
    SdkPlan { steps: v, lib_folder, links }
}

/// What linking SourceMod's detours adds (`link_sm_detours`): header
/// directories and the detour sources for the extension's own build, and
/// two libraries built beside it, each from the entries of a folder.
#[derive(Debug)]
pub struct DetourPlan {
    pub main_steps: Vec<BuildStep>,
    /// The folder whose entries join the extension's own build.
    pub main_folder: Vec<u8>,
    /// The disassembler's folder, then its steps and library name.
    pub zydis_folder: Vec<u8>,
    pub zydis_steps: Vec<BuildStep>,
    pub zydis_lib: Vec<u8>,
    /// The hooking library's steps before and after its folder's entries,
    /// and its library name.
    pub detours_pre: Vec<BuildStep>,
    pub detours_folder: Vec<u8>,
    pub detours_post: Vec<BuildStep>,
    pub detours_lib: Vec<u8>,
}

pub open spec fn detours_main_s(sm: Seq<u8>) -> Seq<Step> {
    seq![header_dir_s(sm, "/public/CDetour"), Step::HeaderDir(headers_under(sm, "/public/safetyhook/"))]
}

pub open spec fn zydis_steps_s(sm: Seq<u8>) -> Seq<Step> {
    seq![header_dir_s(sm, "/public/safetyhook/zydis"), flag_if_s("-Wno-unused")]
}

pub open spec fn detours_pre_s(sm: Seq<u8>) -> Seq<Step> {
    seq![
        Step::Cpp(true),
        Step::HeaderDir(headers_under(sm, "/public/safetyhook/")),
        header_dir_s(sm, "/public/safetyhook/zydis"),
        flag_if_s("-Wno-sign-compare"),
    ]
}

pub open spec fn detours_post_s(t: BuildTarget) -> Seq<Step> {
    if t.like_msvc {
        msvc_arch_define_s(t) + seq![
            define_to_s("COMPILER_MSVC", "1"),
            flag_s("/std:c++latest"),
            flag_s("/permissive-"),
            flag_s("/EHsc"),
        ]
    } else {
        seq![
            define_to_s("COMPILER_GCC", "1"),
            flag_s("-std=c++23"),
            define_s("LINUX"),
            flag_s("-Wno-unknown-pragmas"),
            flag_s("-Wno-dangling-else"),
            flag_s("-Wno-deprecated-volatile"),
        ]
    }
}

/// The MSVC word-size define.
pub open spec fn msvc_arch_define_s(t: BuildTarget) -> Seq<Step> {
    if t.is_x64 {
        seq![define_to_s("COMPILER_MSVC64", "1")]
    } else {
        seq![define_to_s("COMPILER_MSVC32", "1")]
    }
}

fn msvc_arch_define(t: BuildTarget) -> (r: Vec<BuildStep>)
    ensures
        steps(r@) == msvc_arch_define_s(t),
{
    let mut v = no_steps();
    if t.is_x64 {
        push_step(&mut v, define_to("COMPILER_MSVC64", "1"));
    } else {
        push_step(&mut v, define_to("COMPILER_MSVC32", "1"));
    }
    v
}

fn detours_post(t: BuildTarget) -> (r: Vec<BuildStep>)
    ensures
        steps(r@) == detours_post_s(t),
{
    if t.like_msvc {
        let mut v = msvc_arch_define(t);
        let mut w = no_steps();
        push_step(&mut w, define_to("COMPILER_MSVC", "1"));
        push_step(&mut w, flag("/std:c++latest"));
        push_step(&mut w, flag("/permissive-"));
        push_step(&mut w, flag("/EHsc"));
        append_steps(&mut v, w);
        v
    } else {
        let mut v = no_steps();
        push_step(&mut v, define_to("COMPILER_GCC", "1"));
        push_step(&mut v, flag("-std=c++23"));
        push_step(&mut v, define("LINUX"));
        push_step(&mut v, flag("-Wno-unknown-pragmas"));
        push_step(&mut v, flag("-Wno-dangling-else"));
        push_step(&mut v, flag("-Wno-deprecated-volatile"));
        v
    }
}

/// The detour plan for SourceMod at `sm`.
pub fn link_sm_detours(sm: &[u8], t: BuildTarget) -> (r: DetourPlan)
    ensures
        steps(r.main_steps@) == detours_main_s(sm@),
        r.main_folder@ == sm@ + "/public/CDetour".spec_bytes(),
        r.zydis_folder@ == sm@ + "/public/safetyhook/zydis".spec_bytes(),
        steps(r.zydis_steps@) == zydis_steps_s(sm@),
        r.zydis_lib@ == "zydis_and_shit".spec_bytes(),
        steps(r.detours_pre@) == detours_pre_s(sm@),
        r.detours_folder@ == sm@ + "/public/safetyhook/src".spec_bytes(),
        steps(r.detours_post@) == detours_post_s(t),
        r.detours_lib@ == "safetyhook_and_shit".spec_bytes(),
{
    let mut main_steps = no_steps();
    push_step(&mut main_steps, header_dir(sm, "/public/CDetour"));
    push_step(&mut main_steps, BuildStep::HeaderDir(headers_under_exec(sm, "/public/safetyhook/")));
    let mut zydis_steps = no_steps();
    push_step(&mut zydis_steps, header_dir(sm, "/public/safetyhook/zydis"));
    push_step(&mut zydis_steps, flag_if("-Wno-unused"));
    let mut detours_pre = no_steps();
    push_step(&mut detours_pre, BuildStep::Cpp(true));
    push_step(&mut detours_pre, BuildStep::HeaderDir(headers_under_exec(sm, "/public/safetyhook/")));
    push_step(&mut detours_pre, header_dir(sm, "/public/safetyhook/zydis"));
    push_step(&mut detours_pre, flag_if("-Wno-sign-compare"));
    DetourPlan {
        main_steps,
        main_folder: concat_text(sm, "/public/CDetour"),
        zydis_folder: concat_text(sm, "/public/safetyhook/zydis"),
        zydis_steps,
        zydis_lib: text_bytes("zydis_and_shit"),
        detours_pre,
        detours_folder: concat_text(sm, "/public/safetyhook/src"),
        detours_post: detours_post(t),
        detours_lib: text_bytes("safetyhook_and_shit"),
    }
}

/// The string formatter's source (`use_atcprintf`).
pub fn use_atcprintf(root: &[u8]) -> (r: Vec<BuildStep>)
    ensures
        steps(r@) == single_file_s(root@ + "/extshared/src/sprintf.cpp".spec_bytes()),
{
    let p = concat_text(root, "/extshared/src/sprintf.cpp");
    slurp_single_file(p.as_slice())
}

/// The cell array handle type (`use_cellarray`).
pub fn use_cellarray(root: &[u8]) -> (r: Vec<BuildStep>)
    ensures
        steps(r@) == seq![define_s("HANDLE_CELLARRAY")] + single_file_s(root@ + "/extshared/src/ICellArray.cpp".spec_bytes()),
{
    let mut v = no_steps();
    push_step(&mut v, define("HANDLE_CELLARRAY"));
    let p = concat_text(root, "/extshared/src/ICellArray.cpp");
    append_steps(&mut v, slurp_single_file(p.as_slice()));
    v
}

/// The file handle type (`use_fileobject`).
pub fn use_fileobject(root: &[u8]) -> (r: Vec<BuildStep>)
    ensures
        steps(r@) == seq![define_s("HANDLE_FILEOBJECT")]
            + single_file_s(root@ + "/extshared/src/IFileObject.cpp".spec_bytes())
            + single_file_s(root@ + "/extshared/src/IFileObject.hpp".spec_bytes()),
{
    let mut v = no_steps();
    push_step(&mut v, define("HANDLE_FILEOBJECT"));
    let p = concat_text(root, "/extshared/src/IFileObject.cpp");
    append_steps(&mut v, slurp_single_file(p.as_slice()));
    let q = concat_text(root, "/extshared/src/IFileObject.hpp");
    append_steps(&mut v, slurp_single_file(q.as_slice()));
    v
}

/// The game file system's source (`use_valvefs`).
pub fn use_valvefs(root: &[u8]) -> (r: Vec<BuildStep>)
    ensures
        steps(r@) == single_file_s(root@ + "/extshared/src/valvefs.cpp".spec_bytes()),
{
    let p = concat_text(root, "/extshared/src/valvefs.cpp");
    slurp_single_file(p.as_slice())
}

/// After compiling (`compile_lib`): where a GNU-style library is copied
/// to for an MSVC-style name, when a non-MSVC compiler targets Windows.
pub fn lib_copy(outdir: &[u8], name: &[u8], t: BuildTarget) -> (r: Option<(Vec<u8>, Vec<u8>)>)
    ensures
        !t.like_msvc && t.target_windows ==> (r matches Some((from, to))
            && from@ == outdir@ + "/lib".spec_bytes() + name@ + ".a".spec_bytes()
            && to@ == outdir@ + seq![47u8] + name@ + ".lib".spec_bytes()),
        !(!t.like_msvc && t.target_windows) ==> r is None,
{
    if !t.like_msvc && t.target_windows {
        let mut from = concat_text(outdir, "/lib");
        let mut n = bytes_copy(name);
        from.append(&mut n);
        let mut a = text_bytes(".a");
        from.append(&mut a);
        let mut to = bytes_copy(outdir);
        to.push(47u8);
        let mut n2 = bytes_copy(name);
        to.append(&mut n2);
        let mut l = text_bytes(".lib");
        to.append(&mut l);
        Some((from, to))
    } else {
        None
    }
}

/// Where the text generated from a header file goes: `<outdir>/<name>_DEFINES.rs`.
pub fn defines_file(outdir: &[u8], name: &[u8]) -> (r: Vec<u8>)
    ensures
        r@ == outdir@ + seq![47u8] + name@ + "_DEFINES.rs".spec_bytes(),
{
    let mut v = bytes_copy(outdir);
    v.push(47u8);
    let mut n = bytes_copy(name);
    v.append(&mut n);
    let mut d = text_bytes("_DEFINES.rs");
    v.append(&mut d);
    v
}

/// Where an extension's generated C header goes: `src/rust_exports_<package>.h`.
pub fn exports_header(package: &[u8]) -> (r: Vec<u8>)
    ensures
        r@ == "src/rust_exports_".spec_bytes() + package@ + ".h".spec_bytes(),
{
    let mut v = text_bytes("src/rust_exports_");
    let mut p = bytes_copy(package);
    v.append(&mut p);
    let mut h = text_bytes(".h");
    v.append(&mut h);
    v
}

/// The capture groups of every match of a regular expression in a text,
/// in order: for each match, each group (the whole match first) with its
/// text where the group took part in the match; `None` where the pattern
/// does not compile.
pub uninterp spec fn regex_captures(pattern: Seq<char>, dot_matches_new_line: bool, text: Seq<char>) -> Option<Seq<Seq<Option<Seq<u8>>>>>;

/// `regex::RegexBuilder::build`, then `Regex::captures_iter` over the text.
/// Trusted: the result (`None` where the pattern does not compile, else
/// the groups of every match) is `regex_captures` of the pattern, the flag
/// and the text, a function of them alone.
#[verifier::external_body]
fn regex_captures_all(pattern: &str, dot_matches_new_line: bool, text: &str) -> (r: Option<Vec<Vec<Option<Vec<u8>>>>>)
    ensures
        match r {
            Some(c) => regex_captures(pattern@, dot_matches_new_line, text@) == Some(c.deep_view()),
            None => regex_captures(pattern@, dot_matches_new_line, text@) is None,
        },
{
    let re = regex::RegexBuilder::new(pattern).dot_matches_new_line(dot_matches_new_line).build().ok()?;
    let mut out: Vec<Vec<Option<Vec<u8>>>> = Vec::new();
    for c in re.captures_iter(text) {
        out.push(c.iter().map(|g| g.map(|m| m.as_str().as_bytes().to_vec())).collect());
    }
    Some(out)
}

/// A `#define NAME (VALUE)` of a plugin header: the name and the value.
pub const DEFINE_PATTERN: &'static str = r"[^/]#define (\w+)\s+\((.+)\)";

/// An `enum Name { ... }` of a plugin header, up to its first closing brace.
pub const ENUM_PATTERN: &'static str = r"(enum \w+\s*\{.*?\})";

/// A define as a Rust constant.
pub open spec fn define_line(name: Seq<u8>, value: Seq<u8>) -> Seq<u8> {
    "#[allow(dead_code)] const ".spec_bytes() + name + ": i32 = ".spec_bytes() + value + ";\n".spec_bytes()
}

/// The attributes put before an enum taken over.
pub open spec fn enum_head() -> Seq<u8> {
    "\n#[allow(dead_code)]\n#[allow(non_camel_case_types)]\n#[allow(clippy::enum_variant_names)]\n#[derive(Copy, Debug, Clone)]\n#[repr(C)]\npub ".spec_bytes()
}

/// An enum as a public Rust enum.
pub open spec fn enum_block(body: Seq<u8>) -> Seq<u8> {
    enum_head() + body + "\n".spec_bytes()
}

/// Each define match has its name and value groups.
pub open spec fn defines_shaped(caps: Seq<Seq<Option<Seq<u8>>>>) -> bool {
    forall|i: int| 0 <= i < caps.len() ==> #[trigger] caps[i].len() >= 3 && caps[i][1] is Some && caps[i][2] is Some
}

/// Each enum match has its group.
pub open spec fn enums_shaped(caps: Seq<Seq<Option<Seq<u8>>>>) -> bool {
    forall|i: int| 0 <= i < caps.len() ==> #[trigger] caps[i].len() >= 2 && caps[i][1] is Some
}

/// The constants of the define matches, in order.
pub open spec fn define_lines(caps: Seq<Seq<Option<Seq<u8>>>>) -> Seq<u8>
    decreases caps.len(),
{
    if caps.len() == 0 {
        Seq::empty()
    } else {
        define_lines(caps.drop_last()) + define_line(caps.last()[1]->0, caps.last()[2]->0)
    }
}

/// The enums of the enum matches, in order.
pub open spec fn enum_blocks(caps: Seq<Seq<Option<Seq<u8>>>>) -> Seq<u8>
    decreases caps.len(),
{
    if caps.len() == 0 {
        Seq::empty()
    } else {
        enum_blocks(caps.drop_last()) + enum_block(caps.last()[1]->0)
    }
}

/// The Rust text for a plugin header's matches: a constant for each
/// define, then an enum for each enum.
pub fn inc_defines_text(defines: &Vec<Vec<Option<Vec<u8>>>>, enums: &Vec<Vec<Option<Vec<u8>>>>) -> (r: Vec<u8>)
    requires
        defines_shaped(defines.deep_view()),
        enums_shaped(enums.deep_view()),
    ensures
        r@ == define_lines(defines.deep_view()) + enum_blocks(enums.deep_view()),
{
    let ghost dv = defines.deep_view();
    let ghost ev = enums.deep_view();
    let mut out: Vec<u8> = Vec::new();
    let mut i: usize = 0;
    while i < defines.len()
        invariant
            i <= defines@.len(),
            dv == defines.deep_view(),
            dv.len() == defines@.len(),
            defines_shaped(dv),
            out@ == define_lines(dv.take(i as int)),
        decreases defines.len() - i,
    {
        assert(dv[i as int].len() >= 3);
        let m = &defines[i];
        assert(m.deep_view() == dv[i as int]);
        if let (Some(name), Some(value)) = (&m[1], &m[2]) {
            let mut a = text_bytes("#[allow(dead_code)] const ");
            out.append(&mut a);
            let mut n = bytes_copy(name.as_slice());
            out.append(&mut n);
            let mut b = text_bytes(": i32 = ");
            out.append(&mut b);
            let mut x = bytes_copy(value.as_slice());
            out.append(&mut x);
            let mut c = text_bytes(";\n");
            out.append(&mut c);
            proof {
                assert(dv.take(i + 1).drop_last() =~= dv.take(i as int));
                assert(dv[i as int][1] == Some(name@));
                assert(dv[i as int][2] == Some(value@));
            }
        }
        i += 1;
        assert(out@ =~= define_lines(dv.take(i as int)));
    }
    assert(dv.take(dv.len() as int) =~= dv);
    let ghost before = out@;
    let mut j: usize = 0;
    while j < enums.len()
        invariant
            j <= enums@.len(),
            ev == enums.deep_view(),
            ev.len() == enums@.len(),
            enums_shaped(ev),
            out@ == before + enum_blocks(ev.take(j as int)),
        decreases enums.len() - j,
    {
        assert(ev[j as int].len() >= 2);
        let m = &enums[j];
        assert(m.deep_view() == ev[j as int]);
        if let Some(body) = &m[1] {
            let mut a = text_bytes("\n#[allow(dead_code)]\n#[allow(non_camel_case_types)]\n#[allow(clippy::enum_variant_names)]\n#[derive(Copy, Debug, Clone)]\n#[repr(C)]\npub ");
            out.append(&mut a);
            let mut b = bytes_copy(body.as_slice());
            out.append(&mut b);
            let mut c = text_bytes("\n");
            out.append(&mut c);
            proof {
                assert(ev.take(j + 1).drop_last() =~= ev.take(j as int));
                assert(ev[j as int][1] == Some(body@));
            }
        }
        j += 1;
        assert(out@ =~= before + enum_blocks(ev.take(j as int)));
    }
    assert(ev.take(ev.len() as int) =~= ev);
    out
}

fn defines_shaped_exec(caps: &Vec<Vec<Option<Vec<u8>>>>) -> (r: bool)
    ensures
        r == defines_shaped(caps.deep_view()),
{
    let mut i: usize = 0;
    while i < caps.len()
        invariant
            i <= caps@.len(),
            forall|k: int| 0 <= k < i ==> #[trigger] caps.deep_view()[k].len() >= 3 && caps.deep_view()[k][1] is Some && caps.deep_view()[k][2] is Some,
        decreases caps.len() - i,
    {
        let m = &caps[i];
        assert(m.deep_view() == caps.deep_view()[i as int]);
        if m.len() < 3 || m[1].is_none() || m[2].is_none() {
            return false;
        }
        i += 1;
    }
    true
}

fn enums_shaped_exec(caps: &Vec<Vec<Option<Vec<u8>>>>) -> (r: bool)
    ensures
        r == enums_shaped(caps.deep_view()),
{
    let mut i: usize = 0;
    while i < caps.len()
        invariant
            i <= caps@.len(),
            forall|k: int| 0 <= k < i ==> #[trigger] caps.deep_view()[k].len() >= 2 && caps.deep_view()[k][1] is Some,
        decreases caps.len() - i,
    {
        let m = &caps[i];
        assert(m.deep_view() == caps.deep_view()[i as int]);
        if m.len() < 2 || m[1].is_none() {
            return false;
        }
        i += 1;
    }
    true
}

/// The Rust text for a plugin header's contents
/// (`generate_inc_defines_and_enums`): the defines' and enums' matches
/// turned into Rust. `None` where a pattern did not compile or a match
/// lacks a group (where the build script stops).
pub fn generate_inc_defines_and_enums(content: &str) -> (r: Option<Vec<u8>>)
    ensures
        ({
            let d = regex_captures(DEFINE_PATTERN@, false, content@);
            let e = regex_captures(ENUM_PATTERN@, true, content@);
            &&& (r is Some <==> (d is Some && e is Some && defines_shaped(d->0) && enums_shaped(e->0)))
            &&& (r matches Some(t) ==> t@ == define_lines(d->0) + enum_blocks(e->0))
        }),
{
    let d = regex_captures_all(DEFINE_PATTERN, false, content)?;
    let e = regex_captures_all(ENUM_PATTERN, true, content)?;
    if !defines_shaped_exec(&d) || !enums_shaped_exec(&e) {
        return None;
    }
    Some(inc_defines_text(&d, &e))
}

/// Where the SDK's libraries are, by target: `lib/public/` under the SDK,
/// then `x64` or `x86` on Windows and `linux64` or `linux` elsewhere, by
/// pointer width; so the 32-bit and 64-bit folders differ on every system.
pub proof fn law_sdk_lib_folder(sdk: Seq<u8>, t: BuildTarget)
    ensures
        sdk_lib_folder_s(sdk, t) == sdk + if t.target_windows {
            if t.is_x64 { "/lib/public/x64".spec_bytes() } else { "/lib/public/x86".spec_bytes() }
        } else {
            if t.is_x64 { "/lib/public/linux64".spec_bytes() } else { "/lib/public/linux".spec_bytes() }
        },
        !t.target_windows && !t.is_x64 ==> sdk_lib_folder_s(sdk, t).len() == sdk.len() + 17,
        !t.target_windows && t.is_x64 ==> sdk_lib_folder_s(sdk, t).len() == sdk.len() + 19,
        sdk_lib_folder_s(sdk, BuildTarget { is_x64: false, ..t }) != sdk_lib_folder_s(sdk, BuildTarget { is_x64: true, ..t }),
{
    reveal_strlit("/lib/public/x64");
    reveal_strlit("/lib/public/x86");
    reveal_strlit("/lib/public/linux64");
    reveal_strlit("/lib/public/linux");
    assert(vstd::string::is_ascii("/lib/public/x64"));
    assert(vstd::string::is_ascii("/lib/public/x86"));
    assert(vstd::string::is_ascii("/lib/public/linux64"));
    assert(vstd::string::is_ascii("/lib/public/linux"));
    vstd::string::is_ascii_spec_bytes("/lib/public/x64");
    vstd::string::is_ascii_spec_bytes("/lib/public/x86");
    vstd::string::is_ascii_spec_bytes("/lib/public/linux64");
    vstd::string::is_ascii_spec_bytes("/lib/public/linux");
    assert("/lib/public/x64".spec_bytes()[13] == 54u8);
    assert("/lib/public/x86".spec_bytes()[13] == 56u8);
    let a = sdk_lib_folder_s(sdk, BuildTarget { is_x64: false, ..t });
    let b = sdk_lib_folder_s(sdk, BuildTarget { is_x64: true, ..t });
    if t.target_windows {
        assert(a[(sdk.len() + 13) as int] != b[(sdk.len() + 13) as int]);
    } else {
        assert(a.len() != b.len());
    }
}

} // verus!

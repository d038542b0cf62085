use srcwrtimer::build_plan::{
    build_target, default_sdk, default_sourcemod, defines_file, exports_header, game_sdk,
    generate_inc_defines_and_enums, hl2sdk_plan, lib_copy, link_sm_detours, slurp_folder_entry,
    slurp_single_file, smext_build, use_cellarray, BuildStep, BuildTarget, Game,
};
use srcwrtimer::syncer::{branch_refname, merge_plan, sync_request, take_batch, MergePlan, SyncType};

fn linux64() -> BuildTarget {
    BuildTarget { like_msvc: false, target_windows: false, is_x64: true }
}

fn win32_msvc() -> BuildTarget {
    BuildTarget { like_msvc: true, target_windows: true, is_x64: false }
}

fn has_define(steps: &[BuildStep], name: &str, value: Option<&str>) -> bool {
    steps.iter().any(|s| match s {
        BuildStep::Define(n, v) => n.as_slice() == name.as_bytes() && v.as_deref() == value.map(|x| x.as_bytes()),
        _ => false,
    })
}

fn has_flag(steps: &[BuildStep], f: &str) -> bool {
    steps.iter().any(|s| matches!(s, BuildStep::Flag(x) if x.as_slice() == f.as_bytes()))
}

#[test]
fn target_from_build_values() {
    let t = build_target(false, b"64", b"linux");
    assert!(t.is_x64);
    assert!(!t.target_windows);
    let t = build_target(true, b"32", b"windows");
    assert!(!t.is_x64);
    assert!(t.target_windows);
    assert!(t.like_msvc);
}

#[test]
fn smext_build_linux_x64() {
    let steps = smext_build(b"/r", b"/sm", b"/mm", linux64());
    assert!(matches!(&steps[0], BuildStep::Rerun(p) if p.as_slice() == b"/r/extshared/src/coreident.cpp"));
    assert!(steps.iter().any(|s| matches!(s, BuildStep::HeaderDir(p) if p.as_slice() == b"/sm/sourcepawn/include")));
    assert!(steps.iter().any(|s| matches!(s, BuildStep::File(p) if p.as_slice() == b"/sm/public/smsdk_ext.cpp")));
    assert!(has_flag(&steps, "-mcpu=x86_64_v2"));
    assert!(!has_flag(&steps, "-m32"));
    assert!(has_define(&steps, "GetSMExtAPI", Some("GetSMExtAPIxxx")));
    assert!(!has_define(&steps, "WIN32", None));
    // 6 watched files, 16 shared steps, 1 arch flag, 24 compiler steps, 4 OS defines.
    assert_eq!(steps.len(), 6 + 16 + 1 + 24 + 4);
}

#[test]
fn smext_build_windows_msvc_32() {
    let steps = smext_build(b"/r", b"/sm", b"/mm", win32_msvc());
    assert!(has_define(&steps, "COMPILER_MSVC32", Some("1")));
    assert!(!has_define(&steps, "WIN64", None));
    assert!(has_define(&steps, "WIN32", None));
    assert!(has_flag(&steps, "/Oy-"));
    assert!(!has_flag(&steps, "/d2archSSE42"));
    assert_eq!(steps.len(), 6 + 16 + 1 + 7 + 3);
}

#[test]
fn css_sdk_plan() {
    let (name, id) = game_sdk(Game::Css);
    assert_eq!(name, b"css".to_vec());
    assert_eq!(id, 6);
    let sdk = default_sdk(b"/r", &name);
    assert_eq!(sdk, b"/r/_external/alliedmodders/hl2sdk-css".to_vec());
    let plan = hl2sdk_plan(b"/sdk", &name, id, linux64());
    assert!(has_define(&plan.steps, "SE_CSS", Some("6")));
    assert!(has_define(&plan.steps, "SOURCE_ENGINE", Some("6")));
    assert!(has_define(&plan.steps, "NO_HOOK_MALLOC", None));
    assert!(has_define(&plan.steps, "COMPILER_GCC", Some("1")));
    assert_eq!(plan.lib_folder, b"/sdk/lib/public/linux64".to_vec());
    assert!(plan.links.is_empty());
}

#[test]
fn tf2_sdk_plan_windows() {
    let (name, id) = game_sdk(Game::Tf2);
    let plan = hl2sdk_plan(b"/sdk", &name, id, win32_msvc());
    assert!(has_define(&plan.steps, "SE_TF2", Some("12")));
    assert!(!has_define(&plan.steps, "LINUX", None));
    assert_eq!(plan.lib_folder, b"/sdk/lib/public/x86".to_vec());
    assert_eq!(plan.links, vec![b"tier0".to_vec(), b"tier1".to_vec(), b"vstdlib".to_vec(), b"mathlib".to_vec()]);
}

#[test]
fn detour_plan_paths() {
    let sm = default_sourcemod(b"/r");
    assert_eq!(sm, b"/r/_external/alliedmodders/sourcemod".to_vec());
    let plan = link_sm_detours(b"/sm", linux64());
    assert_eq!(plan.main_folder, b"/sm/public/CDetour".to_vec());
    assert_eq!(plan.zydis_lib, b"zydis_and_shit".to_vec());
    assert_eq!(plan.detours_folder, b"/sm/public/safetyhook/src".to_vec());
    assert!(matches!(&plan.detours_pre[0], BuildStep::Cpp(true)));
    assert!(has_flag(&plan.detours_post, "-std=c++23"));
}

#[test]
fn folder_entries_and_single_files() {
    let a = slurp_folder_entry(b"dir", b"a.cpp");
    assert_eq!(a.len(), 2);
    assert!(matches!(&a[1], BuildStep::File(p) if p.as_slice() == b"dir/a.cpp"));
    let h = slurp_folder_entry(b"dir", b"a.h");
    assert_eq!(h.len(), 1);
    assert!(matches!(&h[0], BuildStep::Rerun(p) if p.as_slice() == b"dir/a.h"));
    assert!(slurp_folder_entry(b"dir", b"notes.txt").is_empty());
    assert_eq!(slurp_single_file(b"x.hpp").len(), 1);
    assert_eq!(slurp_single_file(b"x.c").len(), 2);
    let c = use_cellarray(b"/r");
    assert!(has_define(&c, "HANDLE_CELLARRAY", None));
    assert_eq!(c.len(), 3);
}

#[test]
fn output_paths() {
    assert_eq!(lib_copy(b"/o", b"smext", BuildTarget { like_msvc: false, target_windows: true, is_x64: true }),
        Some((b"/o/libsmext.a".to_vec(), b"/o/smext.lib".to_vec())));
    assert_eq!(lib_copy(b"/o", b"smext", win32_msvc()), None);
    assert_eq!(defines_file(b"/o", b"BZIP2"), b"/o/BZIP2_DEFINES.rs".to_vec());
    assert_eq!(exports_header(b"srcwrjson"), b"src/rust_exports_srcwrjson.h".to_vec());
}

#[test]
fn header_defines_and_enums() {
    let content = "//#define IGNORED (1)\n#define BZ_OK (0)\n#define BZ_IO_ERROR (-6)\nenum BZ_Error\n{\n\tBZ_OK = 0,\n\tBZ_IO_ERROR = -6\n};\n";
    let text = generate_inc_defines_and_enums(content).unwrap();
    let expected = "#[allow(dead_code)] const BZ_OK: i32 = 0;\n#[allow(dead_code)] const BZ_IO_ERROR: i32 = -6;\n\n#[allow(dead_code)]\n#[allow(non_camel_case_types)]\n#[allow(clippy::enum_variant_names)]\n#[derive(Copy, Debug, Clone)]\n#[repr(C)]\npub enum BZ_Error\n{\n\tBZ_OK = 0,\n\tBZ_IO_ERROR = -6\n}\n";
    assert_eq!(String::from_utf8(text).unwrap(), expected);
    assert_eq!(generate_inc_defines_and_enums("nothing here").unwrap(), Vec::<u8>::new());
}

#[test]
fn syncer_requests_and_merges() {
    assert!(matches!(sync_request(b"https://x/y.git", true), SyncType::Clone(u) if u == b"https://x/y.git".to_vec()));
    assert!(matches!(sync_request(b"main", false), SyncType::Pull(b) if b == b"main".to_vec()));
    assert_eq!(merge_plan(false, true), MergePlan::Nothing);
    assert_eq!(merge_plan(true, true), MergePlan::FastForward);
    assert_eq!(merge_plan(true, false), MergePlan::CreateBranch);
    assert_eq!(branch_refname(b"main"), b"refs/heads/main".to_vec());
    let mut q = vec![1, 2, 3];
    assert_eq!(take_batch(true, &mut q), None);
    assert_eq!(q, vec![1, 2, 3]);
    assert_eq!(take_batch(false, &mut q), Some(vec![1, 2, 3]));
    assert!(q.is_empty());
}

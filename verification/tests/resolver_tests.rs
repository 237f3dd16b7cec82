use pathclosure::elfdeps::{
    elf_ldso, elf_refs, ldso_from_interp, needs_glibc_probe, parse_ldd_output, sniff, Sniff,
};
use pathclosure::errors::ResolveError;
use pathclosure::shebang::{find_env_cmd, find_shebang, shebang_finish, shebang_plan};

fn strings(v: &[&str]) -> Vec<String> {
    v.iter().map(|s| s.to_string()).collect()
}

#[test]
fn shebang_header_extracted() {
    let buf = b"#!/bin/sh\necho hi\n".to_vec();
    assert_eq!(find_shebang(&buf), Some("/bin/sh".to_string()));
}

#[test]
fn shebang_needs_newline() {
    let buf = b"#!/bin/sh".to_vec();
    assert_eq!(find_shebang(&buf), None);
}

#[test]
fn shebang_needs_magic() {
    let buf = b"echo hi\n".to_vec();
    assert_eq!(find_shebang(&buf), None);
}

#[test]
fn shebang_plan_tokenizes() {
    let plan = shebang_plan("/bin/sh -e").unwrap();
    assert_eq!(plan.interpreter, "/bin/sh");
    assert_eq!(plan.search_name, None);
}

#[test]
fn shebang_plan_env_names_command() {
    let plan = shebang_plan("/usr/bin/env python3").unwrap();
    assert_eq!(plan.interpreter, "/usr/bin/env");
    assert_eq!(plan.search_name, Some("python3".to_string()));
}

#[test]
fn shebang_plan_unclosed_quote_fails() {
    let r = shebang_plan("/bin/sh \"unclosed");
    assert!(matches!(r, Err(ResolveError::InvalidShebang)));
}

#[test]
fn shebang_plan_empty_fails() {
    let r = shebang_plan("   ");
    assert!(matches!(r, Err(ResolveError::InvalidShebang)));
}

#[test]
fn env_chain_emits_both() {
    // header `#!/usr/bin/env B` with B located at /usr/bin/B
    let plan = shebang_plan("/usr/bin/env B").unwrap();
    assert_eq!(plan.search_name, Some("B".to_string()));
    let refs = shebang_finish(&plan, Some("/usr/bin/B".to_string())).unwrap();
    assert_eq!(refs, strings(&["/usr/bin/env", "/usr/bin/B"]));
}

#[test]
fn env_lookup_failure_fails_resolver() {
    let plan = shebang_plan("/usr/bin/env B").unwrap();
    let r = shebang_finish(&plan, None);
    assert!(matches!(r, Err(ResolveError::CommandNotFound)));
}

#[test]
fn env_cmd_skips_flags_and_assignments() {
    assert_eq!(
        find_env_cmd(&strings(&["-i", "FOO=bar", "python3", "arg"])),
        Some("python3".to_string())
    );
    assert_eq!(find_env_cmd(&strings(&["-u", "VAR", "cmd"])), Some("cmd".to_string()));
    assert_eq!(find_env_cmd(&strings(&["-x", "cmd"])), Some("cmd".to_string()));
    assert_eq!(find_env_cmd(&strings(&["-S"])), None);
    assert_eq!(find_env_cmd(&strings(&["FOO=bar"])), None);
}

#[test]
fn sniff_classifies_elf() {
    let mut buf = vec![0x7fu8, 0x45, 0x4c, 0x46];
    buf.extend(std::iter::repeat(0u8).take(60));
    assert!(matches!(sniff(&buf), Sniff::Elf));
}

#[test]
fn sniff_short_elf_prefix_is_other() {
    let buf = vec![0x7fu8, 0x45, 0x4c, 0x46];
    assert!(matches!(sniff(&buf), Sniff::Other));
}

#[test]
fn sniff_classifies_script_and_leaf() {
    let buf = b"#!/usr/bin/env sh\n".to_vec();
    match sniff(&buf) {
        Sniff::Shebang(h) => assert_eq!(h, "/usr/bin/env sh"),
        _ => panic!("expected a script"),
    }
    assert!(matches!(sniff(&b"plain text".to_vec()), Sniff::Other));
}

#[test]
fn missing_interp_falls_back_to_default() {
    let r = ldso_from_interp(Ok(None), "/lib64/ld-linux-x86-64.so.2");
    assert_eq!(r.unwrap(), "/lib64/ld-linux-x86-64.so.2");
}

#[test]
fn interp_content_is_nul_terminated() {
    let bytes = b"/lib/ld-musl.so.1\0garbage".to_vec();
    let r = ldso_from_interp(Ok(Some((bytes, false))), "/default");
    assert_eq!(r.unwrap(), "/lib/ld-musl.so.1");
}

#[test]
fn empty_interp_falls_back_to_default() {
    let r = ldso_from_interp(Ok(Some((b"\0".to_vec(), false))), "/default");
    assert_eq!(r.unwrap(), "/default");
}

#[test]
fn compressed_interp_fails() {
    let r = ldso_from_interp(Ok(Some((b"/x\0".to_vec(), true))), "/default");
    assert!(matches!(r, Err(ResolveError::ElfCompressed)));
}

#[test]
fn garbage_is_not_an_elf_container() {
    let data = b"this is not an elf container at all, not even close".to_vec();
    let r = elf_ldso(&data, "/default");
    assert!(matches!(r, Err(ResolveError::ElfUnparseable)));
}

#[test]
fn nss_gating_on_file_name_only() {
    assert!(needs_glibc_probe("/lib/libc.so.6"));
    assert!(needs_glibc_probe("/lib/x86_64-linux-gnu/libc-2.31.so"));
    assert!(!needs_glibc_probe("/lib/libfoo.so"));
    assert!(!needs_glibc_probe("/lib/liblibc.so"));
}

#[test]
fn ldd_output_parsing() {
    let lines = strings(&[
        "\tlinux-vdso.so.1 (0x00007ffc3b1d3000)",
        "\tlibc.so.6 => /lib/x86_64-linux-gnu/libc.so.6 (0x00007f2a1c000000)",
        "\t/lib64/ld-linux-x86-64.so.2 (0x00007f2a1c2f0000)",
        "\tstatically linked",
        "\tlibm.so.6 =>  (0x00007f0000000000)",
    ]);
    let deps = parse_ldd_output(&lines);
    assert_eq!(deps, strings(&["/lib/x86_64-linux-gnu/libc.so.6"]));
}

#[test]
fn elf_refs_assembly() {
    let glibc = strings(&["/g1"]);
    let ldd = strings(&["/d1", "/d2"]);
    let out = elf_refs(&glibc, &ldd, "/ld.so".to_string());
    assert_eq!(out, strings(&["/g1", "/d1", "/d2", "/ld.so"]));
}

#[test]
fn error_messages() {
    assert_eq!(ResolveError::Unsupported.message(), "path is unsupported");
    assert_eq!(ResolveError::InvalidShebang.message(), "invalid shebang");
    assert_eq!(ResolveError::CommandNotFound.message(), "command not found");
    assert_eq!(ResolveError::ElfUnparseable.message(), "unparseable ELF container");
    assert_eq!(ResolveError::ElfCompressed.message(), "compressed headers unsupported");
    assert_eq!(ResolveError::NoParentDir.message(), "no parent directory found");
}

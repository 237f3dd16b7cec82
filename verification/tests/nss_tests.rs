use pathclosure::nss::{find_glibc_deps, glibc_extra_refs, parse_glibc_banner, parse_nsswitch_conf};
use pathclosure::version::Version;

fn strings(v: &[&str]) -> Vec<String> {
    v.iter().map(|s| s.to_string()).collect()
}

#[test]
fn nsswitch_handlers_distinct_in_order() {
    let conf = "passwd: files systemd # trailing comment\n\
                group: files systemd\n\
                hosts: files dns [NOTFOUND=return] mymachines\n";
    let handlers = parse_nsswitch_conf(conf);
    assert_eq!(handlers, strings(&["files", "systemd", "dns", "mymachines"]));
}

#[test]
fn nsswitch_comment_only_and_blank_lines() {
    let conf = "# full comment line\n\n   \npasswd: compat\n";
    assert_eq!(parse_nsswitch_conf(conf), strings(&["compat"]));
}

#[test]
fn nsswitch_bracket_suffix_stripped() {
    let conf = "hosts: dns[!UNAVAIL=return] files\n";
    assert_eq!(parse_nsswitch_conf(conf), strings(&["dns", "files"]));
}

#[test]
fn candidates_with_minor_version() {
    let v = Version::from_str("2.31").unwrap();
    let names = find_glibc_deps(&v, &strings(&["files"]));
    assert_eq!(
        names,
        strings(&[
            "libgcc_s.so.1",
            "libidn2.so.0",
            "libnss_files-2.31.so",
            "libnss_files.so.2",
            "libnss_files.so",
        ])
    );
}

#[test]
fn candidates_without_minor_version() {
    let v = Version::from_str("2").unwrap();
    let names = find_glibc_deps(&v, &strings(&["dns"]));
    assert_eq!(
        names,
        strings(&["libgcc_s.so.1", "libidn2.so.0", "libnss_dns.so.2", "libnss_dns.so"])
    );
}

#[test]
fn support_libraries_probed_even_without_handlers() {
    let v = Version::from_str("2.35").unwrap();
    let names = find_glibc_deps(&v, &Vec::new());
    assert_eq!(names, strings(&["libgcc_s.so.1", "libidn2.so.0"]));
}

#[test]
fn conf_path_travels_with_closure() {
    let located = strings(&["/lib/libnss_files.so.2"]);
    let out = glibc_extra_refs(&located, Some("/etc/nsswitch.conf".to_string()));
    assert_eq!(out, strings(&["/lib/libnss_files.so.2", "/etc/nsswitch.conf"]));
    let out2 = glibc_extra_refs(&located, None);
    assert_eq!(out2, strings(&["/lib/libnss_files.so.2"]));
}

#[test]
fn banner_version_extracted() {
    let line = "GNU C Library (Ubuntu GLIBC 2.31-0ubuntu9.9) stable release version 2.31.";
    let v = parse_glibc_banner(line).unwrap();
    assert_eq!(v.major(), 2);
    assert_eq!(v.minor(), Some(31));
    assert_eq!(v.revision(), None);
}

#[test]
fn banner_is_case_insensitive() {
    let line = "gnu c library release version 2.35.1";
    let v = parse_glibc_banner(line).unwrap();
    assert_eq!(v.major(), 2);
    assert_eq!(v.minor(), Some(35));
    assert_eq!(v.revision(), Some(1));
}

#[test]
fn non_banner_line_yields_nothing() {
    assert!(parse_glibc_banner("musl libc (x86_64) Version 1.2.3").is_none());
    assert!(parse_glibc_banner("").is_none());
    assert!(parse_glibc_banner("GNU C Library without a version token").is_none());
}

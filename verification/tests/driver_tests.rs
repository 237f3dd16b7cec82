use pathclosure::driver::Closure;
use pathclosure::paths::{parent_dir, file_name, resolve_path};

fn strings(v: &[&str]) -> Vec<String> {
    v.iter().map(|s| s.to_string()).collect()
}

#[test]
fn resolve_path_joins_relative() {
    assert_eq!(resolve_path("a", "/b"), "/b/a");
}

#[test]
fn resolve_path_collapses_dots() {
    assert_eq!(resolve_path("../x", "/a/b"), "/a/x");
    assert_eq!(resolve_path("./y", "/a"), "/a/y");
}

#[test]
fn resolve_path_keeps_absolute() {
    assert_eq!(resolve_path("/abs/p", "/c"), "/abs/p");
}

#[test]
fn parent_dir_lexical() {
    assert_eq!(parent_dir("/a/b"), Some("/a".to_string()));
    assert_eq!(parent_dir("/a"), Some("/".to_string()));
    assert_eq!(parent_dir("/"), None);
}

#[test]
fn file_name_lexical() {
    assert_eq!(file_name("/lib/libc.so.6"), "libc.so.6");
    assert_eq!(file_name("/a"), "a");
}

#[test]
fn sort_order_scenario() {
    // inputs resolving to /a, /bb, /ab come out sorted by length then text
    let seeds = strings(&["a", "bb", "ab"]);
    let mut c = Closure::new(&seeds, "/");
    while let Some(p) = c.next() {
        c.record(p, false, &Vec::new()).unwrap();
    }
    assert_eq!(c.finish(), strings(&["/a", "/ab", "/bb"]));
}

#[test]
fn no_duplicates_in_result() {
    let seeds = strings(&["x", "x", "./x"]);
    let mut c = Closure::new(&seeds, "/");
    while let Some(p) = c.next() {
        if p == "/x" {
            let refs = strings(&["x", "y", "y"]);
            c.record(p, true, &refs).unwrap();
        } else {
            c.record(p, false, &Vec::new()).unwrap();
        }
    }
    let out = c.finish();
    assert_eq!(out, strings(&["/x", "/x/x", "/x/y"]));
    for i in 0..out.len() {
        for j in i + 1..out.len() {
            assert_ne!(out[i], out[j]);
        }
    }
}

#[test]
fn directory_enqueues_each_child_once() {
    let seeds = strings(&["/d"]);
    let mut c = Closure::new(&seeds, "/");
    let d = c.next().unwrap();
    assert_eq!(d, "/d");
    c.record(d, true, &strings(&["x", "y", "z"])).unwrap();
    // exactly the three children follow, each classified independently
    let mut seen = Vec::new();
    while let Some(p) = c.next() {
        seen.push(p.clone());
        c.record(p, false, &Vec::new()).unwrap();
    }
    assert_eq!(seen, strings(&["/d/x", "/d/y", "/d/z"]));
}

#[test]
fn failure_isolation() {
    let seeds = strings(&["/ok1", "/bad", "/ok2"]);
    let mut c = Closure::new(&seeds, "/");
    let mut failures = 0;
    while let Some(p) = c.next() {
        if p == "/bad" {
            failures += 1;
            c.record_failure(p);
        } else {
            c.record(p, false, &Vec::new()).unwrap();
        }
    }
    assert_eq!(failures, 1);
    let out = c.finish();
    assert_eq!(out, strings(&["/ok1", "/ok2"]));
    assert!(!out.contains(&"/bad".to_string()));
}

#[test]
fn failed_path_is_not_retried() {
    let seeds = strings(&["/p"]);
    let mut c = Closure::new(&seeds, "/");
    let p = c.next().unwrap();
    c.record_failure(p);
    // rediscovered via another entity: must not be resolved again
    c.record("/q".to_string(), true, &strings(&["../p"])).unwrap();
    assert!(c.next().is_none());
    assert_eq!(c.finish(), strings(&["/q"]));
}

#[test]
fn determinism_same_inputs_same_output() {
    let run = || {
        let seeds = strings(&["b", "a", "c"]);
        let mut c = Closure::new(&seeds, "/root");
        let mut depth = 0;
        while let Some(p) = c.next() {
            if depth < 3 {
                depth += 1;
                let refs = strings(&["shared", "other"]);
                c.record(p, true, &refs).unwrap();
            } else {
                c.record(p, false, &Vec::new()).unwrap();
            }
        }
        c.finish()
    };
    assert_eq!(run(), run());
}

#[test]
fn sort_length_counts_bytes() {
    // "\u{a2}" encodes to two bytes, so "/\u{a2}" and "/ab" tie on length
    // and the tie falls to the lexicographic order
    let seeds = strings(&["\u{a2}", "ab"]);
    let mut c = Closure::new(&seeds, "/");
    while let Some(p) = c.next() {
        c.record(p, false, &Vec::new()).unwrap();
    }
    assert_eq!(c.finish(), strings(&["/ab", "/\u{a2}"]));
}

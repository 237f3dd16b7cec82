//! The shebang resolver: extracts the `#!` header from a sniffed buffer,
//! tokenizes it shell-style, always emits the interpreter, and resolves the
//! `env` search-path indirection to the real command when one is named.

use vstd::prelude::*;

verus! {

use vstd::utf8::{valid_utf8, decode_utf8};
use crate::errors::ResolveError;
use crate::strutil::{find_ch, str_eq, has_char};

/// What shell-style word-splitting returns for a header: the tokens, or
/// nothing when the text cannot be tokenized (an unclosed quote).
pub uninterp spec fn shlex_split_of(s: Seq<char>) -> Option<Seq<Seq<char>>>;

/// Relies on `shlex::split` (shlex 2.0): shell-style word-splitting with
/// quoting and escaping, a function of the text alone.
#[verifier::external_body]
fn split_words(s: &str) -> (r: Option<Vec<String>>)
    ensures
        r.deep_view() == shlex_split_of(s@),
{
    shlex::split(s)
}

/// Relies on `std::str::from_utf8`: succeeds exactly on valid UTF-8 and
/// decodes it.
#[verifier::external_body]
fn utf8_string(b: &Vec<u8>) -> (r: Option<String>)
    ensures
        r matches Some(s) ==> valid_utf8(b@) && s@ == decode_utf8(b@),
        r is None ==> !valid_utf8(b@),
{
    std::str::from_utf8(b.as_slice()).ok().map(|s| s.to_owned())
}

/// Relies on `which::which`: resolves a command name through the
/// executable search path.  The answer depends on the environment and the
/// filesystem, so nothing is promised of it.
#[verifier::external_body]
fn which_lookup(name: &str) -> (r: Option<String>)
{
    match which::which(name) {
        Ok(p) => Some(p.to_string_lossy().into_owned()),
        Err(_) => None,
    }
}

/// Index of the first newline byte at or after `i`, or the length.
pub open spec fn find_nl(b: Seq<u8>, i: int) -> int
    decreases b.len() - i,
{
    if i < 0 || i >= b.len() {
        b.len() as int
    } else if b[i] == 10 {
        i
    } else {
        find_nl(b, i + 1)
    }
}

/// The raw shebang header bytes: the text between `#!` and the first
/// newline, present only when the buffer starts with `#!` and holds a
/// newline.
pub open spec fn shebang_line_of(b: Seq<u8>) -> Option<Seq<u8>> {
    if b.len() >= 2 && b[0] == 35 && b[1] == 33 && find_nl(b, 0) < b.len() {
        Some(b.subrange(2, find_nl(b, 0)))
    } else {
        None
    }
}

/// Finds the first newline byte.
fn find_nl_at(buffer: &Vec<u8>) -> (r: usize)
    ensures
        r == find_nl(buffer@, 0),
        r <= buffer@.len(),
        r < buffer@.len() ==> buffer@[r as int] == 10,
{
    let n = buffer.len();
    let mut i: usize = 0;
    while i < n
        invariant
            0 <= i <= n == buffer@.len(),
            find_nl(buffer@, 0) == find_nl(buffer@, i as int),
        decreases n - i,
    {
        if buffer[i] == 10 {
            return i;
        }
        assert(find_nl(buffer@, i as int) == find_nl(buffer@, i + 1 as int));
        i = i + 1;
    }
    i
}

/// Extracts the shebang header of a sniffed buffer: present when the
/// buffer starts with `#!`, holds a newline, and the text between decodes
/// as UTF-8.
pub fn find_shebang(buffer: &Vec<u8>) -> (r: Option<String>)
    ensures
        match shebang_line_of(buffer@) {
            Some(line) => (valid_utf8(line) ==> (r matches Some(s) && s@ == decode_utf8(line)))
                && (!valid_utf8(line) ==> r is None),
            None => r is None,
        },
{
    if buffer.len() < 2 || buffer[0] != 35 || buffer[1] != 33 {
        return None;
    }
    let n = buffer.len();
    let e = find_nl_at(buffer);
    if e == n {
        assert(shebang_line_of(buffer@) is None);
        return None;
    }
    assert(buffer@[e as int] == 10);
    assert(e >= 2) by {
        assert(buffer@[0] == 35 && buffer@[1] == 33);
    }
    let mut h: Vec<u8> = Vec::new();
    let mut i: usize = 2;
    while i < e
        invariant
            2 <= i <= e < buffer@.len(),
            h@ =~= buffer@.subrange(2, i as int),
        decreases e - i,
    {
        let ghost h0 = h@;
        h.push(buffer[i]);
        proof {
            assert(h@ =~= buffer@.subrange(2, i + 1 as int));
        }
        i = i + 1;
    }
    proof {
        assert(h@ =~= buffer@.subrange(2, e as int));
    }
    utf8_string(&h)
}

/// The flags of the `env` indirection that take no argument.
pub open spec fn is_zero_flag(a: Seq<char>) -> bool {
    a == "-i"@ || a == "--ignore-environment"@ || a == "-0"@ || a == "--null"@ || a == "-v"@
        || a == "--debug"@
}

/// The flags of the `env` indirection that consume the following token.
pub open spec fn is_value_flag(a: Seq<char>) -> bool {
    a == "-u"@ || a == "--unset"@ || a == "-C"@ || a == "--chdir"@ || a == "-S"@
        || a == "--split-string"@
}

/// The command the `env` indirection will run, scanning from `i`: flags
/// are skipped (value flags with their argument, when one follows), and
/// the first token that is neither flag-shaped nor an `=`-assignment is
/// the command.
pub open spec fn env_cmd_of(args: Seq<Seq<char>>, i: int) -> Option<Seq<char>>
    decreases args.len() - i,
{
    if i < 0 || i >= args.len() {
        None
    } else {
        let a = args[i];
        if a.len() > 0 && a[0] == '-' {
            if is_zero_flag(a) {
                env_cmd_of(args, i + 1)
            } else if is_value_flag(a) && i + 1 < args.len() {
                env_cmd_of(args, i + 2)
            } else {
                env_cmd_of(args, i + 1)
            }
        } else if find_ch(a, '=', 0) == a.len() {
            Some(a)
        } else {
            env_cmd_of(args, i + 1)
        }
    }
}

fn is_zero_flag_exec(a: &str) -> (r: bool)
    ensures
        r == is_zero_flag(a@),
{
    str_eq(a, "-i") || str_eq(a, "--ignore-environment") || str_eq(a, "-0") || str_eq(a, "--null")
        || str_eq(a, "-v") || str_eq(a, "--debug")
}

fn is_value_flag_exec(a: &str) -> (r: bool)
    ensures
        r == is_value_flag(a@),
{
    str_eq(a, "-u") || str_eq(a, "--unset") || str_eq(a, "-C") || str_eq(a, "--chdir") || str_eq(
        a,
        "-S",
    ) || str_eq(a, "--split-string")
}

fn scan_env_cmd(args: &Vec<String>, from: usize) -> (r: Option<String>)
    requires
        from <= args@.len(),
    ensures
        r.deep_view() == env_cmd_of(args.deep_view(), from as int),
{
    let mut i = from;
    while i < args.len()
        invariant
            from <= i <= args@.len(),
            env_cmd_of(args.deep_view(), from as int) == env_cmd_of(args.deep_view(), i as int),
        decreases args@.len() - i,
    {
        let a = &args[i];
        proof {
            assert(args.deep_view()[i as int] == a@);
        }
        let n = a.as_str().unicode_len();
        let dash = if n > 0 {
            a.as_str().get_char(0) == '-'
        } else {
            false
        };
        if dash {
            if is_zero_flag_exec(a.as_str()) {
                assert(env_cmd_of(args.deep_view(), i as int) == env_cmd_of(
                    args.deep_view(),
                    i + 1 as int,
                ));
                i = i + 1;
            } else if is_value_flag_exec(a.as_str()) && i + 1 < args.len() {
                assert(env_cmd_of(args.deep_view(), i as int) == env_cmd_of(
                    args.deep_view(),
                    i + 2 as int,
                ));
                i = i + 2;
            } else {
                assert(env_cmd_of(args.deep_view(), i as int) == env_cmd_of(
                    args.deep_view(),
                    i + 1 as int,
                ));
                i = i + 1;
            }
        } else if !has_char(a.as_str(), '=') {
            proof {
                assert(env_cmd_of(args.deep_view(), i as int) == Some(a@));
            }
            return Some(a.clone());
        } else {
            assert(env_cmd_of(args.deep_view(), i as int) == env_cmd_of(
                args.deep_view(),
                i + 1 as int,
            ));
            i = i + 1;
        }
    }
    None
}

/// The command the `env` indirection will run, if the arguments name one.
pub fn find_env_cmd(args: &Vec<String>) -> (r: Option<String>)
    ensures
        r.deep_view() == env_cmd_of(args.deep_view(), 0),
{
    scan_env_cmd(args, 0)
}

/// A tokenized shebang header: the interpreter to emit, plus the command
/// name still to be located through the search path, when the interpreter
/// is the `env` indirection.
pub struct ShebangPlan {
    pub interpreter: String,
    pub search_name: Option<String>,
}

/// What planning a header returns: nothing when the header cannot be
/// tokenized or yields no tokens; otherwise the first token, and the
/// command name to locate when that token is the `env` indirection.
pub open spec fn plan_of(header: Seq<char>) -> Option<(Seq<char>, Option<Seq<char>>)> {
    match shlex_split_of(header) {
        None => None,
        Some(toks) => if toks.len() == 0 {
            None
        } else {
            let cmd = toks[0];
            if cmd == "/usr/bin/env"@ && toks.len() > 1 {
                Some((cmd, env_cmd_of(toks, 1)))
            } else {
                Some((cmd, None))
            }
        },
    }
}

/// Tokenizes a shebang header and plans its resolution.
pub fn shebang_plan(header: &str) -> (r: Result<ShebangPlan, ResolveError>)
    ensures
        match plan_of(header@) {
            None => r matches Err(e) && e is InvalidShebang,
            Some(p) => r matches Ok(pl) && pl.interpreter@ == p.0 && pl.search_name.deep_view()
                == p.1,
        },
{
    let toks = match split_words(header) {
        Some(v) => v,
        None => {
            return Err(ResolveError::InvalidShebang);
        },
    };
    if toks.len() == 0 {
        assert(toks.deep_view() =~= Seq::<Seq<char>>::empty());
        return Err(ResolveError::InvalidShebang);
    }
    let cmd = toks[0].clone();
    proof {
        assert(toks.deep_view()[0] == cmd@);
    }
    if str_eq(cmd.as_str(), "/usr/bin/env") && toks.len() > 1 {
        let sn = scan_env_cmd(&toks, 1);
        Ok(ShebangPlan { interpreter: cmd, search_name: sn })
    } else {
        Ok(ShebangPlan { interpreter: cmd, search_name: None })
    }
}

/// What finishing a plan returns, given the search outcome: the
/// interpreter alone when nothing was to be located; the interpreter and
/// the located path when the search succeeded; nothing when it failed.
pub open spec fn finish_of(
    cmd: Seq<char>,
    search: Option<Seq<char>>,
    located: Option<Seq<char>>,
) -> Option<Seq<Seq<char>>> {
    match search {
        None => Some(seq![cmd]),
        Some(_) => match located {
            Some(p) => Some(seq![cmd, p]),
            None => None,
        },
    }
}

/// Turns a plan and the search outcome into the emitted references; a
/// failed search fails the whole resolver.
pub fn shebang_finish(plan: &ShebangPlan, located: Option<String>) -> (r: Result<
    Vec<String>,
    ResolveError,
>)
    ensures
        match finish_of(plan.interpreter@, plan.search_name.deep_view(), located.deep_view()) {
            Some(v) => r matches Ok(o) && o.deep_view() == v,
            None => r matches Err(e) && e is CommandNotFound,
        },
{
    match &plan.search_name {
        None => {
            let mut out: Vec<String> = Vec::new();
            out.push(plan.interpreter.clone());
            proof {
                assert(out.deep_view() =~= seq![plan.interpreter@]);
            }
            Ok(out)
        },
        Some(_) => {
            match located {
                Some(p) => {
                    let mut out: Vec<String> = Vec::new();
                    out.push(plan.interpreter.clone());
                    out.push(p);
                    proof {
                        assert(out.deep_view() =~= seq![
                            plan.interpreter@,
                            out.deep_view()[1],
                        ]);
                    }
                    Ok(out)
                },
                None => Err(ResolveError::CommandNotFound),
            }
        },
    }
}

/// Resolves a decoded shebang header completely: tokenize, plan, locate
/// through the search path where needed, and emit the references.
pub fn shebang_refs(header: &str) -> (r: Result<Vec<String>, ResolveError>)
    ensures
        plan_of(header@) is None ==> (r matches Err(e) && e is InvalidShebang),
        plan_of(header@) matches Some(p) ==> match r {
            Ok(v) => v.deep_view().len() >= 1 && v.deep_view().len() <= 2 && v.deep_view()[0]
                == p.0 && (p.1 is None ==> v.deep_view() == seq![p.0]) && (v.deep_view().len() == 2
                ==> p.1 is Some),
            Err(e) => e is CommandNotFound && p.1 is Some,
        },
{
    let plan = match shebang_plan(header) {
        Ok(p) => p,
        Err(e) => {
            return Err(e);
        },
    };
    let located: Option<String> = match &plan.search_name {
        Some(name) => which_lookup(name.as_str()),
        None => None,
    };
    shebang_finish(&plan, located)
}

/// The `env` indirection chain: when a header tokenizes to the
/// indirection command followed by one plain command name, the plan names
/// that command, and finishing it with a located path emits exactly the
/// indirection command and that path.
pub proof fn lemma_env_chain(header: Seq<char>, name: Seq<char>, located: Seq<char>)
    requires
        shlex_split_of(header) == Some(seq!["/usr/bin/env"@, name]),
        name.len() > 0,
        name[0] != '-',
        find_ch(name, '=', 0) == name.len(),
    ensures
        plan_of(header) == Some(("/usr/bin/env"@, Some(name))),
        finish_of("/usr/bin/env"@, Some(name), Some(located)) == Some(
            seq!["/usr/bin/env"@, located],
        ),
{
    let toks = seq!["/usr/bin/env"@, name];
    assert(toks.len() == 2);
    assert(toks[0] == "/usr/bin/env"@);
    assert(toks[1] == name);
    assert(env_cmd_of(toks, 1) == Some(name));
}

} // verus!

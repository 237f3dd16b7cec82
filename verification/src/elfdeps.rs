//! The ELF dependency resolver: sniffs a buffer, extracts the requested
//! dynamic linker from the `.interp` section (falling back to a default
//! linker path when it is absent or empty), gates the C-library extension
//! probe on the file name, and parses the linker's trace output into
//! shared-library dependencies.

use vstd::prelude::*;

verus! {

use vstd::utf8::{valid_utf8, decode_utf8};
use crate::errors::ResolveError;
use crate::paths::{file_name, file_name_of};
use crate::shebang::{shebang_line_of, find_shebang};
use crate::strutil::{find_sub, trim_of, trim, find_sub_at, starts_with};

/// The error type of the elf crate, opaque to the contracts here.
#[verifier::external_type_specification]
#[verifier::external_body]
pub struct ExParseError(elf::ParseError);

/// The ELF magic test as the sniffer applies it: a buffer longer than an
/// ELF header prefix whose first four bytes are `0x7f` `E` `L` `F`.
pub open spec fn elf_magic(b: Seq<u8>) -> bool {
    b.len() > 52 && b[0] == 0x7f && b[1] == 0x45 && b[2] == 0x4c && b[3] == 0x46
}

/// Relies on `infer::app::is_elf` (infer 0.22), whose body tests exactly
/// this magic.
#[verifier::external_body]
fn is_elf_buf(b: &Vec<u8>) -> (r: bool)
    ensures
        r == elf_magic(b@),
{
    infer::app::is_elf(b.as_slice())
}

/// What extracting a named section from an ELF image returns: nothing
/// when the bytes do not parse as an ELF container, an empty inner value
/// when the container holds no section of that name, and otherwise the
/// section's raw content together with whether it is compressed.  A
/// function of the bytes and the name alone; the endianness expected of
/// the container is the build target's, a compile-time matter.
pub uninterp spec fn section_content_of(data: Seq<u8>, name: Seq<char>) -> Option<
    Option<(Seq<u8>, bool)>,
>;

/// Relies on elf 0.8's `ElfBytes::minimal_parse`,
/// `section_header_by_name` and `section_data`: parses the container,
/// looks the named section up, and hands back its raw content together
/// with whether it is compressed.
#[verifier::external_body]
fn elf_section_content(data: &Vec<u8>, name: &str) -> (r: Result<
    Option<(Vec<u8>, bool)>,
    elf::ParseError,
>)
    ensures
        match r {
            Err(_) => section_content_of(data@, name@) is None,
            Ok(None) => section_content_of(data@, name@) == Some(
                Option::<(Seq<u8>, bool)>::None,
            ),
            Ok(Some((bytes, comp))) => section_content_of(data@, name@) == Some(
                Some((bytes@, comp)),
            ),
        },
{
    let f = match elf::ElfBytes::<elf::endian::NativeEndian>::minimal_parse(data.as_slice()) {
        Ok(f) => f,
        Err(e) => return Err(e),
    };
    let hdr = match f.section_header_by_name(name) {
        Ok(Some(h)) => h,
        Ok(None) => return Ok(None),
        Err(e) => return Err(e),
    };
    match f.section_data(&hdr) {
        Ok((d, c)) => Ok(Some((d.to_vec(), c.is_some()))),
        Err(e) => Err(e),
    }
}

/// Relies on `String::from_utf8_lossy`: valid UTF-8 decodes exactly, and
/// invalid sequences are replaced rather than dropped, so emptiness is
/// preserved.
#[verifier::external_body]
fn lossy_string(b: &Vec<u8>) -> (r: String)
    ensures
        valid_utf8(b@) ==> r@ == decode_utf8(b@),
        b@.len() == 0 ==> r@.len() == 0,
        b@.len() > 0 ==> r@.len() > 0,
{
    String::from_utf8_lossy(b.as_slice()).into_owned()
}

/// How a regular file's first bytes classify it.
pub enum Sniff {
    /// A script: the decoded shebang header.
    Shebang(String),
    /// An ELF container.
    Elf,
    /// A leaf with no further requirements.
    Other,
}

/// The decoded shebang header, when the buffer has one.
pub open spec fn shebang_header_of(b: Seq<u8>) -> Option<Seq<u8>> {
    match shebang_line_of(b) {
        Some(l) => if valid_utf8(l) {
            Some(l)
        } else {
            None
        },
        None => None,
    }
}

/// Classifies a regular file's first bytes: a decodable `#!` header makes
/// a script, else the ELF magic makes an ELF container, else a leaf.
pub fn sniff(buffer: &Vec<u8>) -> (r: Sniff)
    ensures
        match shebang_header_of(buffer@) {
            Some(line) => r matches Sniff::Shebang(s) && s@ == decode_utf8(line),
            None => if elf_magic(buffer@) {
                r is Elf
            } else {
                r is Other
            },
        },
{
    match find_shebang(buffer) {
        Some(s) => Sniff::Shebang(s),
        None => {
            if is_elf_buf(buffer) {
                Sniff::Elf
            } else {
                Sniff::Other
            }
        },
    }
}

/// Index of the first NUL byte at or after `i`, or the length.
pub open spec fn find_nul(b: Seq<u8>, i: int) -> int
    decreases b.len() - i,
{
    if i < 0 || i >= b.len() {
        b.len() as int
    } else if b[i] == 0 {
        i
    } else {
        find_nul(b, i + 1)
    }
}

/// The section content read as a NUL-terminated string.
pub open spec fn nul_trim(b: Seq<u8>) -> Seq<u8> {
    b.take(find_nul(b, 0))
}

/// Finds the first NUL byte.
fn find_nul_at(bytes: &Vec<u8>) -> (r: usize)
    ensures
        r == find_nul(bytes@, 0),
        r <= bytes@.len(),
{
    let n = bytes.len();
    let mut i: usize = 0;
    while i < n
        invariant
            0 <= i <= n == bytes@.len(),
            find_nul(bytes@, 0) == find_nul(bytes@, i as int),
        decreases n - i,
    {
        if bytes[i] == 0 {
            return i;
        }
        assert(find_nul(bytes@, i as int) == find_nul(bytes@, i + 1 as int));
        i = i + 1;
    }
    i
}

/// Turns the `.interp` extraction outcome into the dynamic linker to
/// invoke: an unparseable container fails, a compressed section fails, a
/// missing section or an empty content falls back to the given default
/// linker path, and otherwise the NUL-terminated content is the linker.
pub fn ldso_from_interp(
    interp: Result<Option<(Vec<u8>, bool)>, elf::ParseError>,
    default_ldso: &str,
) -> (r: Result<String, ResolveError>)
    ensures
        match interp {
            Err(_) => r matches Err(e) && e is ElfUnparseable,
            Ok(None) => r matches Ok(s) && s@ == default_ldso@,
            Ok(Some((bytes, comp))) => if comp {
                r matches Err(e) && e is ElfCompressed
            } else {
                if nul_trim(bytes@).len() == 0 {
                    r matches Ok(s) && s@ == default_ldso@
                } else {
                    r matches Ok(s) && s@.len() > 0 && (valid_utf8(nul_trim(bytes@)) ==> s@
                        == decode_utf8(nul_trim(bytes@)))
                }
            },
        },
{
    match interp {
        Err(_) => Err(ResolveError::ElfUnparseable),
        Ok(None) => Ok(default_ldso.to_owned()),
        Ok(Some((bytes, comp))) => {
            if comp {
                return Err(ResolveError::ElfCompressed);
            }
            let e = find_nul_at(&bytes);
            let mut content: Vec<u8> = Vec::new();
            let mut i: usize = 0;
            while i < e
                invariant
                    0 <= i <= e <= bytes@.len(),
                    content@ =~= bytes@.subrange(0, i as int),
                decreases e - i,
            {
                content.push(bytes[i]);
                proof {
                    assert(content@ =~= bytes@.subrange(0, i + 1 as int));
                }
                i = i + 1;
            }
            proof {
                assert(content@ =~= bytes@.take(e as int));
            }
            if content.len() == 0 {
                proof {
                    assert(nul_trim(bytes@).len() == 0);
                }
                Ok(default_ldso.to_owned())
            } else {
                proof {
                    assert(content@ == nul_trim(bytes@));
                }
                Ok(lossy_string(&content))
            }
        },
    }
}

/// Extracts the dynamic linker a parsed ELF container requests: an
/// unparseable container fails, a compressed `.interp` section fails, a
/// missing section or an empty content falls back to the given default
/// linker path, and otherwise the section's NUL-terminated content is the
/// linker.
pub fn elf_ldso(data: &Vec<u8>, default_ldso: &str) -> (r: Result<String, ResolveError>)
    ensures
        match section_content_of(data@, ".interp"@) {
            None => r matches Err(e) && e is ElfUnparseable,
            Some(None) => r matches Ok(s) && s@ == default_ldso@,
            Some(Some((bytes, comp))) => if comp {
                r matches Err(e) && e is ElfCompressed
            } else if nul_trim(bytes).len() == 0 {
                r matches Ok(s) && s@ == default_ldso@
            } else {
                r matches Ok(s) && s@.len() > 0 && (valid_utf8(nul_trim(bytes)) ==> s@
                    == decode_utf8(nul_trim(bytes)))
            },
        },
{
    let interp = elf_section_content(data, ".interp");
    ldso_from_interp(interp, default_ldso)
}

/// Whether a file name follows the C-library naming convention.
pub open spec fn libc_file_name(name: Seq<char>) -> bool {
    "libc.so"@.is_prefix_of(name) || "libc-"@.is_prefix_of(name)
}

/// The C-library name test: `libc.so*` or `libc-*`.
pub fn is_libc_name(name: &str) -> (r: bool)
    ensures
        r == libc_file_name(name@),
{
    starts_with(name, "libc.so") || starts_with(name, "libc-")
}

/// Gates the C-library extension probe: only a path whose file name
/// follows the C-library naming convention triggers it, whatever the
/// file's content.
pub fn needs_glibc_probe(path: &str) -> (r: bool)
    ensures
        r == libc_file_name(file_name_of(path@)),
{
    let fname = file_name(path);
    is_libc_name(fname.as_str())
}

/// The dependency one trace line names: present when the line carries the
/// `(0x` address marker and a `=>` separator with non-empty text between
/// the separator and the marker.
pub open spec fn ldd_dep_of(line: Seq<char>) -> Option<Seq<char>> {
    let t = trim_of(line);
    let pos = find_sub(t, "(0x"@, 0);
    if pos == t.len() {
        None
    } else {
        let head = trim_of(t.take(pos));
        let arrow = find_sub(head, "=>"@, 0);
        if arrow == head.len() {
            None
        } else {
            let dep = trim_of(head.skip(arrow + 2));
            if dep.len() > 0 {
                Some(dep)
            } else {
                None
            }
        }
    }
}

/// The dependencies of a whole trace, in line order.
pub open spec fn ldd_deps_of(lines: Seq<Seq<char>>) -> Seq<Seq<char>>
    decreases lines.len(),
{
    if lines.len() == 0 {
        Seq::empty()
    } else {
        let rest = ldd_deps_of(lines.drop_last());
        match ldd_dep_of(lines.last()) {
            Some(d) => rest.push(d),
            None => rest,
        }
    }
}

/// Parses one line of the dynamic linker's trace output.
fn ldd_dep(line: &str) -> (r: Option<String>)
    ensures
        r.deep_view() == ldd_dep_of(line@),
{
    let t = trim(line);
    let n = t.as_str().unicode_len();
    let pos = find_sub_at(t.as_str(), "(0x", 0);
    if pos == n {
        return None;
    }
    let pre = t.as_str().substring_char(0, pos);
    proof {
        assert(pre@ =~= t@.take(pos as int));
    }
    let head = trim(pre);
    let hn = head.as_str().unicode_len();
    let arrow = find_sub_at(head.as_str(), "=>", 0);
    if arrow == hn {
        return None;
    }
    proof {
        reveal_strlit("=>");
    }
    let tail = head.as_str().substring_char(arrow + 2, hn);
    proof {
        assert(tail@ =~= head@.skip(arrow + 2));
    }
    let dep = trim(tail);
    if dep.as_str().unicode_len() > 0 {
        Some(dep)
    } else {
        None
    }
}

/// Parses the dynamic linker's whole trace output: every line with both a
/// `=>` separator and a `(0x` address marker contributes the trimmed text
/// between them; other lines are ignored.
pub fn parse_ldd_output(lines: &Vec<String>) -> (r: Vec<String>)
    ensures
        r.deep_view() == ldd_deps_of(lines.deep_view()),
{
    let mut out: Vec<String> = Vec::new();
    let mut i: usize = 0;
    proof {
        assert(lines.deep_view().take(0) =~= Seq::<Seq<char>>::empty());
    }
    while i < lines.len()
        invariant
            0 <= i <= lines@.len(),
            out.deep_view() == ldd_deps_of(lines.deep_view().take(i as int)),
        decreases lines@.len() - i,
    {
        let ghost o0 = out.deep_view();
        let ghost t1 = lines.deep_view().take(i + 1 as int);
        proof {
            assert(t1.drop_last() =~= lines.deep_view().take(i as int));
            assert(t1.last() == lines.deep_view()[i as int]);
        }
        match ldd_dep(lines[i].as_str()) {
            Some(d) => {
                out.push(d);
                proof {
                    assert(out.deep_view() =~= o0.push(out.deep_view().last()));
                    assert(out.deep_view() == ldd_deps_of(t1));
                }
            },
            None => {
                proof {
                    assert(out.deep_view() == ldd_deps_of(t1));
                }
            },
        }
        i = i + 1;
    }
    proof {
        assert(lines.deep_view().take(lines@.len() as int) =~= lines.deep_view());
    }
    out
}

/// Appends clones of every element of `src`.
fn extend_clone(out: &mut Vec<String>, src: &Vec<String>)
    ensures
        final(out).deep_view() == old(out).deep_view() + src.deep_view(),
{
    let mut i: usize = 0;
    proof {
        assert(old(out).deep_view() + src.deep_view().take(0) =~= old(out).deep_view());
    }
    while i < src.len()
        invariant
            0 <= i <= src@.len(),
            out.deep_view() == old(out).deep_view() + src.deep_view().take(i as int),
        decreases src@.len() - i,
    {
        let ghost o0 = out.deep_view();
        out.push(src[i].clone());
        proof {
            assert(forall|t: int| 0 <= t < o0.len() ==> #[trigger] out.deep_view()[t] == o0[t]);
            assert(out.deep_view().last() == src.deep_view()[i as int]);
            assert(out.deep_view() =~= old(out).deep_view() + src.deep_view().take(i + 1 as int));
        }
        i = i + 1;
    }
    proof {
        assert(src.deep_view().take(src@.len() as int) =~= src.deep_view());
    }
}

/// Assembles an ELF entity's references: the extension resolver's
/// discoveries, then the traced dependencies, then always the dynamic
/// linker's own path.
pub fn elf_refs(glibc_deps: &Vec<String>, ldd_deps: &Vec<String>, ldso: String) -> (r: Vec<
    String,
>)
    ensures
        r.deep_view() == glibc_deps.deep_view() + ldd_deps.deep_view() + seq![ldso@],
{
    let ghost lv = ldso@;
    let mut out: Vec<String> = Vec::new();
    proof {
        assert(out.deep_view() =~= Seq::<Seq<char>>::empty());
    }
    extend_clone(&mut out, glibc_deps);
    extend_clone(&mut out, ldd_deps);
    let ghost o0 = out.deep_view();
    out.push(ldso);
    proof {
        assert(forall|t: int| 0 <= t < o0.len() ==> #[trigger] out.deep_view()[t] == o0[t]);
        assert(out.deep_view().last() == lv);
        assert(Seq::<Seq<char>>::empty() + glibc_deps.deep_view() =~= glibc_deps.deep_view());
        assert(out.deep_view() =~= glibc_deps.deep_view() + ldd_deps.deep_view() + seq![lv]);
    }
    out
}

} // verus!

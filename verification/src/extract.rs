//! Version extractors: pure functions that turn the raw text output of one
//! external command into a normalized version string for one subsystem.
//! Every extractor tolerates malformed or empty input by returning the empty
//! string instead of failing.
use vstd::prelude::*;

use crate::text::contains_seq;
use crate::text::contains_str;
use crate::text::find_first_with;
use crate::text::first_with;
use crate::text::join_comma;
use crate::text::join_with_commas;
use crate::text::keep_not;
use crate::text::lemma_filter_all_keep;
use crate::text::lemma_first_with_found;
use crate::text::lemma_sort_dedup_props;
use crate::text::lemma_split_on_first_sep;
use crate::text::lemma_split_on_len;
use crate::text::lemma_split_on_no_sep;
use crate::text::sorted_unique;
use crate::text::lines_of;
use crate::text::non_empty_pred;
use crate::text::remove_char;
use crate::text::retain_non_empty;
use crate::text::sort_dedup;
use crate::text::sort_dedup_strings;
use crate::text::split_on;
use crate::text::split_str;
use crate::text::str_eq;
use crate::text::views_of;

verus! {

/// The OS pretty name: the segment of the first `PRETTY_NAME` line between
/// the first `=` and the next one (or the end of the line), with every
/// double-quote character dropped; empty if no line holds the key or the
/// line has no `=`.
pub open spec fn spec_os_version(out: Seq<char>) -> Seq<char> {
    match first_with(lines_of(out), "PRETTY_NAME"@) {
        Option::None => Seq::<char>::empty(),
        Option::Some(line) => {
            let parts = split_on(line, '=');
            if parts.len() >= 2 {
                parts[1].filter(keep_not('"'))
            } else {
                Seq::<char>::empty()
            }
        },
    }
}

/// The kernel release: the raw output with every newline dropped.
pub open spec fn spec_kernel_version(out: Seq<char>) -> Seq<char> {
    out.filter(keep_not('\n'))
}

/// The driver version, from the first line of the driver-info dump split on
/// whitespace with empty tokens dropped.  The classic wording
/// (`NVRM version: NVIDIA UNIX <arch> Kernel Module  <version> ...`) carries
/// the version as the eighth token.  The open-kernel wording
/// (`NVRM version: NVIDIA UNIX Open Kernel Module for <arch>  <version> ...`)
/// shifts it: there the eighth token is the word `for` and the version is the
/// tenth token, after the architecture.  A line with too few tokens yields
/// the empty string.
pub open spec fn spec_nvidia_driver_version(out: Seq<char>) -> Seq<char> {
    let toks = split_on(lines_of(out)[0], ' ').filter(non_empty_pred());
    if toks.len() >= 8 && toks[7] == "for"@ {
        if toks.len() >= 10 {
            toks[9]
        } else {
            Seq::<char>::empty()
        }
    } else if toks.len() >= 8 {
        toks[7]
    } else {
        Seq::<char>::empty()
    }
}

/// The CUDA toolkit version: on the first line containing `Build`, the part
/// of the second space-separated token before its first `/`; empty if no
/// such line exists or the line has no second token.
pub open spec fn spec_cuda_version(out: Seq<char>) -> Seq<char> {
    match first_with(lines_of(out), "Build"@) {
        Option::None => Seq::<char>::empty(),
        Option::Some(line) => {
            let parts = split_on(line, ' ');
            if parts.len() >= 2 {
                split_on(parts[1], '/')[0]
            } else {
                Seq::<char>::empty()
            }
        },
    }
}

/// The third whitespace-separated token of every entry containing `pattern`,
/// in order of appearance; an entry with fewer than three tokens contributes
/// nothing.
pub open spec fn dpkg_versions(ls: Seq<Seq<char>>, pattern: Seq<char>) -> Seq<Seq<char>>
    decreases ls.len(),
{
    if ls.len() == 0 {
        Seq::<Seq<char>>::empty()
    } else {
        let init = dpkg_versions(ls.drop_last(), pattern);
        let toks = split_on(ls.last(), ' ').filter(non_empty_pred());
        if contains_seq(ls.last(), pattern) && toks.len() >= 3 {
            init.push(toks[2])
        } else {
            init
        }
    }
}

/// The package versions of a listing: the third whitespace-separated token
/// of every line containing `pattern` (lines with fewer tokens skipped),
/// deduplicated, sorted ascending, and joined with commas.
pub open spec fn spec_dpkg_version(out: Seq<char>, pattern: Seq<char>) -> Seq<char> {
    join_comma(sort_dedup(dpkg_versions(lines_of(out), pattern)))
}

/// The cuDNN field: the dpkg-style extraction for the `libcudnn8` marker.
pub open spec fn spec_cudnn_version(out: Seq<char>) -> Seq<char> {
    spec_dpkg_version(out, "libcudnn8"@)
}

/// The TensorRT field: the dpkg-style extraction for the `libnv` marker.
pub open spec fn spec_tensorrt_version(out: Seq<char>) -> Seq<char> {
    spec_dpkg_version(out, "libnv"@)
}

/// For OS-release text in which some line is exactly `PRETTY_NAME="x"` and
/// every line mentioning `PRETTY_NAME` is that line, with `x` free of quote
/// and equals characters, the OS extractor returns exactly `x`, with no
/// quotes.
pub proof fn lemma_os_extractor_exact(out: Seq<char>, x: Seq<char>)
    requires
        exists|i: int|
            0 <= i < lines_of(out).len() && #[trigger] lines_of(out)[i] == "PRETTY_NAME"@
                + seq!['='] + seq!['"'] + x + seq!['"'],
        forall|j: int|
            0 <= j < lines_of(out).len() && contains_seq(
                #[trigger] lines_of(out)[j],
                "PRETTY_NAME"@,
            ) ==> lines_of(out)[j] == "PRETTY_NAME"@ + seq!['='] + seq!['"'] + x + seq!['"'],
        forall|k: int| 0 <= k < x.len() ==> x[k] != '"' && x[k] != '=',
    ensures
        spec_os_version(out) == x,
{
    let key = "PRETTY_NAME"@;
    reveal_strlit("PRETTY_NAME");
    let i0 = choose|i: int|
        0 <= i < lines_of(out).len() && #[trigger] lines_of(out)[i] == key + seq!['='] + seq!['"']
            + x + seq!['"'];
    assert(lines_of(out)[i0].subrange(0, 0 + key.len() as int) =~= key);
    assert(contains_seq(lines_of(out)[i0], key));
    lemma_first_with_found(lines_of(out), key);
    let line = first_with(lines_of(out), key).unwrap();
    assert(line == key + seq!['='] + seq!['"'] + x + seq!['"']);
    let quote = seq!['"'];
    let rest = quote + x + quote;
    assert(line =~= key + seq!['='] + rest);
    assert(line[key.len() as int] == '=');
    assert(forall|k: int| 0 <= k < key.len() ==> key[k] != '=');
    assert(forall|k: int| 0 <= k < key.len() ==> line[k] == key[k]);
    lemma_split_on_first_sep(line, '=', key.len() as int);
    assert(line.take(key.len() as int) =~= key);
    assert(line.skip(key.len() as int + 1) =~= rest);
    assert forall|k: int| 0 <= k < rest.len() implies rest[k] != '=' by {
        if 1 <= k < 1 + x.len() {
            assert(rest[k] == x[k - 1]);
        }
    }
    lemma_split_on_no_sep(rest, '=');
    let parts = split_on(line, '=');
    assert(parts =~= seq![key] + seq![rest]);
    assert(parts.len() == 2);
    assert(parts[1] == rest);
    let pred = keep_not('"');
    reveal(Seq::filter);
    Seq::<char>::filter_distributes_over_add(quote + x, quote, pred);
    Seq::<char>::filter_distributes_over_add(quote, x, pred);
    assert(quote.drop_last() =~= Seq::<char>::empty());
    assert(Seq::<char>::empty().filter(pred) =~= Seq::<char>::empty());
    assert(quote.last() == '"' && !pred('"'));
    assert(quote.filter(pred) =~= Seq::<char>::empty());
    lemma_filter_all_keep(x, '"');
    assert(rest.filter(pred) =~= x);
}

/// On CUDA compiler output in which some line is exactly `Build <ver>/<tail>`
/// (one space after `Build`) and every line mentioning `Build` is that line,
/// with `ver` free of spaces and slashes, the CUDA extractor returns exactly
/// `ver`.
pub proof fn lemma_cuda_extractor_exact(out: Seq<char>, ver: Seq<char>, tail: Seq<char>)
    requires
        exists|i: int|
            0 <= i < lines_of(out).len() && #[trigger] lines_of(out)[i] == "Build"@ + seq![' ']
                + ver + seq!['/'] + tail,
        forall|j: int|
            0 <= j < lines_of(out).len() && contains_seq(#[trigger] lines_of(out)[j], "Build"@)
                ==> lines_of(out)[j] == "Build"@ + seq![' '] + ver + seq!['/'] + tail,
        forall|k: int| 0 <= k < ver.len() ==> ver[k] != ' ' && ver[k] != '/',
    ensures
        spec_cuda_version(out) == ver,
{
    let key = "Build"@;
    reveal_strlit("Build");
    let i0 = choose|i: int|
        0 <= i < lines_of(out).len() && #[trigger] lines_of(out)[i] == key + seq![' '] + ver
            + seq!['/'] + tail;
    assert(lines_of(out)[i0].subrange(0, 0 + key.len() as int) =~= key);
    assert(contains_seq(lines_of(out)[i0], key));
    lemma_first_with_found(lines_of(out), key);
    let line = first_with(lines_of(out), key).unwrap();
    assert(line == key + seq![' '] + ver + seq!['/'] + tail);
    let rest = ver + seq!['/'] + tail;
    assert(line =~= key + seq![' '] + rest);
    assert(line[key.len() as int] == ' ');
    assert(forall|k: int| 0 <= k < key.len() ==> key[k] != ' ');
    assert(forall|k: int| 0 <= k < key.len() ==> line[k] == key[k]);
    lemma_split_on_first_sep(line, ' ', key.len() as int);
    assert(line.take(key.len() as int) =~= key);
    assert(line.skip(key.len() as int + 1) =~= rest);
    let parts = split_on(line, ' ');
    lemma_split_on_len(rest, ' ');
    assert(parts.len() >= 2);
    assert(parts[1] == split_on(rest, ' ')[0]);
    assert(rest[ver.len() as int] == '/');
    assert(forall|k: int| 0 <= k < ver.len() ==> rest[k] == ver[k] && rest[k] != ' ');
    let popt = rest.index_of_first(' ');
    rest.index_of_first_ensures(' ');
    match popt {
        Option::Some(p) => {
            assert(rest[p] == ' ');
            assert(p > ver.len());
            lemma_split_on_first_sep(rest, ' ', p);
            let tok = rest.take(p);
            assert(split_on(rest, ' ')[0] == tok);
            assert(tok[ver.len() as int] == '/');
            assert(forall|k: int| 0 <= k < ver.len() ==> tok[k] == ver[k] && tok[k] != '/');
            lemma_split_on_first_sep(tok, '/', ver.len() as int);
            assert(tok.take(ver.len() as int) =~= ver);
            assert(split_on(tok, '/')[0] == ver);
        },
        Option::None => {
            lemma_split_on_no_sep(rest, ' ');
            assert(split_on(rest, ' ')[0] == rest);
            assert(forall|k: int| 0 <= k < ver.len() ==> rest[k] != '/');
            lemma_split_on_first_sep(rest, '/', ver.len() as int);
            assert(rest.take(ver.len() as int) =~= ver);
            assert(split_on(rest, '/')[0] == ver);
        },
    }
}

/// A package listing's extraction is the comma-joined form of an ascending,
/// duplicate-free sequence that holds exactly the set of versions carried by
/// the lines matching the marker.
pub proof fn lemma_dpkg_extractor_sorted(out: Seq<char>, pattern: Seq<char>)
    ensures
        sorted_unique(sort_dedup(dpkg_versions(lines_of(out), pattern))),
        sort_dedup(dpkg_versions(lines_of(out), pattern)).to_set() == dpkg_versions(
            lines_of(out),
            pattern,
        ).to_set(),
        spec_dpkg_version(out, pattern) == join_comma(
            sort_dedup(dpkg_versions(lines_of(out), pattern)),
        ),
{
    lemma_sort_dedup_props(dpkg_versions(lines_of(out), pattern));
}

/// Extracts the OS pretty name from the OS release-info dump.
pub fn get_os_version(command_output: &str) -> (r: String)
    ensures
        r@ == spec_os_version(command_output@),
{
    let lines = split_str(command_output, '\n');
    match find_first_with(&lines, "PRETTY_NAME") {
        Option::None => String::new(),
        Option::Some(line) => {
            let parts = split_str(line.as_str(), '=');
            if parts.len() >= 2 {
                remove_char(parts[1].as_str(), '"')
            } else {
                String::new()
            }
        },
    }
}

/// Extracts the kernel release from the kernel-release command output.
pub fn get_kernel_version(command_output: &str) -> (r: String)
    ensures
        r@ == spec_kernel_version(command_output@),
{
    remove_char(command_output, '\n')
}

/// Extracts the driver version from the driver-info dump, handling both the
/// classic and the open-kernel wording of its first line.
pub fn get_nvidia_driver_version(command_output: &str) -> (r: String)
    ensures
        r@ == spec_nvidia_driver_version(command_output@),
{
    proof {
        lemma_split_on_len(command_output@, '\n');
    }
    let lines = split_str(command_output, '\n');
    let raw_toks = split_str(lines[0].as_str(), ' ');
    let toks = retain_non_empty(&raw_toks);
    if toks.len() >= 8 && str_eq(toks[7].as_str(), "for") {
        if toks.len() >= 10 {
            toks[9].clone()
        } else {
            String::new()
        }
    } else if toks.len() >= 8 {
        toks[7].clone()
    } else {
        String::new()
    }
}

/// Extracts the CUDA toolkit version from the compiler version output.
pub fn get_cuda_version(command_output: &str) -> (r: String)
    ensures
        r@ == spec_cuda_version(command_output@),
{
    let lines = split_str(command_output, '\n');
    match find_first_with(&lines, "Build") {
        Option::None => String::new(),
        Option::Some(line) => {
            let parts = split_str(line.as_str(), ' ');
            if parts.len() >= 2 {
                proof {
                    lemma_split_on_len(parts@[1]@, '/');
                }
                let segs = split_str(parts[1].as_str(), '/');
                segs[0].clone()
            } else {
                String::new()
            }
        },
    }
}

/// Extracts the sorted, deduplicated, comma-joined package versions for one
/// marker from a package-listing output.
pub fn get_dpkg_version(command_output: &str, pattern: &str) -> (r: String)
    ensures
        r@ == spec_dpkg_version(command_output@, pattern@),
{
    let lines = split_str(command_output, '\n');
    let ghost ls = lines_of(command_output@);
    let mut versions: Vec<String> = Vec::new();
    let mut i: usize = 0;
    proof {
        assert(views_of(versions@) =~= dpkg_versions(ls.take(0), pattern@));
    }
    while i < lines.len()
        invariant
            i <= ls.len(),
            lines@.len() == ls.len(),
            views_of(lines@) == ls,
            views_of(versions@) == dpkg_versions(ls.take(i as int), pattern@),
        decreases ls.len() - i,
    {
        let ghost old_versions = versions@;
        if contains_str(lines[i].as_str(), pattern) {
            let raw_toks = split_str(lines[i].as_str(), ' ');
            let toks = retain_non_empty(&raw_toks);
            if toks.len() >= 3 {
                versions.push(toks[2].clone());
            }
        }
        proof {
            assert(ls.take(i + 1).drop_last() =~= ls.take(i as int));
            assert(ls.take(i + 1).last() == ls[i as int]);
            let spec_toks = split_on(ls[i as int], ' ').filter(non_empty_pred());
            if contains_seq(ls[i as int], pattern@) && spec_toks.len() >= 3 {
                assert(views_of(versions@) =~= views_of(old_versions).push(spec_toks[2]));
            }
        }
        i += 1;
    }
    proof {
        assert(ls.take(ls.len() as int) =~= ls);
    }
    let sorted = sort_dedup_strings(versions);
    join_with_commas(&sorted)
}

/// Extracts the cuDNN field from the cuDNN package-listing output.
pub fn get_cudnn_version(command_output: &str) -> (r: String)
    ensures
        r@ == spec_cudnn_version(command_output@),
{
    get_dpkg_version(command_output, "libcudnn8")
}

/// Extracts the TensorRT field from the TensorRT package-listing output.
pub fn get_tensorrt_version(command_output: &str) -> (r: String)
    ensures
        r@ == spec_tensorrt_version(command_output@),
{
    get_dpkg_version(command_output, "libnv")
}

} // verus!

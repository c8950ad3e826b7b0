//! Tweak filters: a tweak's `tweak.ksfilter` lists, one per line, the
//! process names (comms) it is loaded into; `*` matches every process and
//! `#` starts a comment. The supervisor also reads the names to decide which
//! executables to wrap.

use vstd::prelude::*;
use vstd::string::StringSliceAdditionalSpecFns;
use vstd::utf8::encode_utf8;

use crate::text::{
    chars_of, equals, find, find_char, lines, lines_of, push_str, slice, str_eq, string_of, trim, trim_chars, vec_views,
};

verus! {

/// Bytes the kernel keeps of a process name (`TASK_COMM_LEN - 1`).
pub const COMM_MAX: usize = 15;

/// Whether `p` is a prefix of `s`.
pub open spec fn bytes_prefix(s: Seq<u8>, p: Seq<u8>) -> bool {
    p.len() <= s.len() && s.subrange(0, p.len() as int) == p
}

/// A filter token names the process `comm`: it is `comm`, or `comm` is the
/// kernel's truncation of it to `COMM_MAX` bytes.
pub open spec fn token_names(token: Seq<char>, comm: Seq<char>) -> bool {
    &&& token.len() > 0
    &&& (token == comm || (encode_utf8(token).len() > COMM_MAX && encode_utf8(comm).len() == COMM_MAX
        && bytes_prefix(encode_utf8(token), encode_utf8(comm))))
}

/// Whether a filter token matches the process name `comm`, allowing for the
/// kernel's truncation of long names.
pub fn comm_token_matches(token: &str, comm: &str) -> (b: bool)
    ensures
        b == token_names(token@, comm@),
{
    if token.is_empty() {
        return false;
    }
    if str_eq(token, comm) {
        return true;
    }
    let tb = token.as_bytes();
    let cb = comm.as_bytes();
    if !(tb.len() > COMM_MAX && cb.len() == COMM_MAX) {
        return false;
    }
    let mut i: usize = 0;
    while i < cb.len()
        invariant
            tb@ == encode_utf8(token@),
            cb@ == encode_utf8(comm@),
            cb@.len() == COMM_MAX < tb@.len(),
            i <= cb@.len(),
            forall|k: int| 0 <= k < i ==> tb@[k] == cb@[k],
        decreases cb@.len() - i,
    {
        if tb[i] != cb[i] {
            assert(tb@.subrange(0, cb@.len() as int)[i as int] != cb@[i as int]);
            return false;
        }
        i += 1;
    }
    assert(tb@.subrange(0, cb@.len() as int) =~= cb@);
    true
}

/// The kernel's record of a process named `name`: its first `COMM_MAX`
/// bytes.
pub open spec fn comm_of(name: Seq<char>) -> Seq<u8> {
    let b = encode_utf8(name);
    if b.len() <= COMM_MAX { b } else { b.subrange(0, COMM_MAX as int) }
}

/// Whether the text read from `/proc/<pid>/comm` (`found`) is the process
/// named `name`.
pub fn proc_comm_is(found: &str, name: &str) -> (b: bool)
    ensures
        b == (encode_utf8(trim(found@)) == comm_of(name@)),
{
    let f = string_of(trim_chars(chars_of(found).as_slice()).as_slice());
    let fb = f.as_str().as_bytes();
    let nb = name.as_bytes();
    let n = if nb.len() <= COMM_MAX { nb.len() } else { COMM_MAX };
    let ghost want = comm_of(name@);
    assert(want =~= nb@.subrange(0, n as int));
    if fb.len() != n {
        return false;
    }
    let mut i: usize = 0;
    while i < n
        invariant
            fb@ == encode_utf8(trim(found@)),
            nb@ == encode_utf8(name@),
            want == nb@.subrange(0, n as int),
            fb@.len() == n,
            n <= nb@.len(),
            i <= n,
            forall|k: int| 0 <= k < i ==> fb@[k] == nb@[k],
        decreases n - i,
    {
        if fb[i] != nb[i] {
            assert(fb@[i as int] != want[i as int]);
            return false;
        }
        i += 1;
    }
    assert(fb@ =~= want);
    true
}

/// The token of a filter line: the text before any `#`, trimmed.
pub open spec fn filter_token(line: Seq<char>) -> Seq<char> {
    match find_char(line, '#') {
        Some(i) => trim(line.subrange(0, i)),
        None => trim(line),
    }
}

/// Whether one filter line selects `comm`.
pub open spec fn line_selects(line: Seq<char>, comm: Seq<char>) -> bool {
    filter_token(line) == "*"@ || token_names(filter_token(line), comm)
}

/// Whether a filter's text selects the process `comm`.
pub open spec fn filter_selects(contents: Seq<char>, comm: Seq<char>) -> bool {
    exists|i: int| 0 <= i < lines(contents).len() && line_selects(#[trigger] lines(contents)[i], comm)
}

/// The token of one filter line.
pub fn token_of(line: &[char]) -> (t: Vec<char>)
    ensures
        t@ == filter_token(line@),
{
    match find(line, '#') {
        Some(i) => {
            let before = slice(line, 0, i);
            trim_chars(before.as_slice())
        },
        None => trim_chars(line),
    }
}

/// Whether a filter's text selects the process `comm`.
pub fn filter_matches(contents: &str, comm: &str) -> (b: bool)
    ensures
        b == filter_selects(contents@, comm@),
{
    let chars = chars_of(contents);
    let ls = lines_of(chars.as_slice());
    let ghost lv = vec_views(ls@);
    assert(lv =~= lines(contents@));
    let mut i: usize = 0;
    while i < ls.len()
        invariant
            i <= ls@.len(),
            lv == vec_views(ls@),
            lv == lines(contents@),
            forall|k: int| 0 <= k < i ==> !line_selects(#[trigger] lv[k], comm@),
        decreases ls@.len() - i,
    {
        let t = token_of(ls[i].as_slice());
        let ts = string_of(t.as_slice());
        if equals(t.as_slice(), "*") || comm_token_matches(ts.as_str(), comm) {
            assert(line_selects(lv[i as int], comm@));
            return true;
        }
        i += 1;
    }
    false
}

/// The names a filter's text adds to `names`: each token that is neither
/// blank nor `*` and not already listed, in order.
pub open spec fn add_tokens(names: Seq<Seq<char>>, ls: Seq<Seq<char>>) -> Seq<Seq<char>>
    decreases ls.len(),
{
    if ls.len() == 0 {
        names
    } else {
        let prev = add_tokens(names, ls.drop_last());
        let t = filter_token(ls.last());
        if t.len() == 0 || t == "*"@ || prev.contains(t) {
            prev
        } else {
            prev.push(t)
        }
    }
}

pub open spec fn string_views(v: Seq<String>) -> Seq<Seq<char>> {
    v.map_values(|s: String| s@)
}

fn contains_name(names: &Vec<String>, t: &str) -> (b: bool)
    ensures
        b == string_views(names@).contains(t@),
{
    let mut i: usize = 0;
    while i < names.len()
        invariant
            i <= names@.len(),
            forall|k: int| 0 <= k < i ==> names@[k]@ != t@,
        decreases names@.len() - i,
    {
        if str_eq(names[i].as_str(), t) {
            assert(string_views(names@)[i as int] == t@);
            return true;
        }
        i += 1;
    }
    proof {
        if string_views(names@).contains(t@) {
            let k = choose|k: int| 0 <= k < string_views(names@).len() && string_views(names@)[k] == t@;
            assert(names@[k]@ == t@);
        }
    }
    false
}

/// Adds the process names a filter's text lists to `names`, without
/// repeating any.
pub fn add_filter_tokens(names: &mut Vec<String>, contents: &str)
    ensures
        string_views(final(names)@) == add_tokens(string_views(old(names)@), lines(contents@)),
{
    let chars = chars_of(contents);
    let ls = lines_of(chars.as_slice());
    let ghost lv = vec_views(ls@);
    let ghost start = string_views(names@);
    assert(lv =~= lines(contents@));
    let mut i: usize = 0;
    assert(lv.subrange(0, 0) =~= Seq::<Seq<char>>::empty());
    while i < ls.len()
        invariant
            i <= ls@.len(),
            lv == vec_views(ls@),
            lv == lines(contents@),
            string_views(names@) == add_tokens(start, lv.subrange(0, i as int)),
        decreases ls@.len() - i,
    {
        assert(lv.subrange(0, i + 1).drop_last() =~= lv.subrange(0, i as int));
        let t = token_of(ls[i].as_slice());
        let ts = string_of(t.as_slice());
        if !(t.len() == 0 || equals(t.as_slice(), "*") || contains_name(names, ts.as_str())) {
            let ghost before = string_views(names@);
            names.push(ts);
            assert(string_views(names@) =~= before.push(t@));
        }
        i += 1;
    }
    assert(lv.subrange(0, lv.len() as int) =~= lv);
}

/// The system directories in which a spawn root is looked for.
pub open spec fn bin_dirs() -> Seq<Seq<char>> {
    seq!["/usr/bin"@, "/usr/sbin"@, "/bin"@, "/sbin"@]
}

/// The paths at which the executable `name` may be installed, in the order
/// they are tried.
pub fn root_path_candidates(name: &str) -> (paths: Vec<String>)
    ensures
        string_views(paths@) == bin_dirs().map_values(|d: Seq<char>| d + "/"@ + name@),
{
    let dirs: [&str; 4] = ["/usr/bin", "/usr/sbin", "/bin", "/sbin"];
    let mut paths: Vec<String> = Vec::new();
    let mut i: usize = 0;
    while i < 4
        invariant
            i <= 4,
            dirs@.len() == 4,
            forall|k: int| 0 <= k < 4 ==> (#[trigger] dirs@[k])@ == bin_dirs()[k],
            string_views(paths@) == bin_dirs().subrange(0, i as int).map_values(|d: Seq<char>| d + "/"@ + name@),
        decreases 4 - i,
    {
        let mut p = String::from_str(dirs[i]);
        push_str(&mut p, "/");
        push_str(&mut p, name);
        let ghost before = string_views(paths@);
        assert(p@ == bin_dirs()[i as int] + "/"@ + name@);
        paths.push(p);
        assert(string_views(paths@) =~= before.push(p@));
        assert(bin_dirs().subrange(0, i + 1).map_values(|d: Seq<char>| d + "/"@ + name@) =~= bin_dirs().subrange(
            0,
            i as int,
        ).map_values(|d: Seq<char>| d + "/"@ + name@).push(bin_dirs()[i as int] + "/"@ + name@));
        i += 1;
    }
    assert(bin_dirs().subrange(0, 4) =~= bin_dirs());
    paths
}

/// `roots` with each of `candidates` that it lacks appended, in order.
pub open spec fn merged(roots: Seq<Seq<char>>, candidates: Seq<Seq<char>>) -> Seq<Seq<char>>
    decreases candidates.len(),
{
    if candidates.len() == 0 {
        roots
    } else {
        let prev = merged(roots, candidates.drop_last());
        if prev.contains(candidates.last()) {
            prev
        } else {
            prev.push(candidates.last())
        }
    }
}

/// Adds each candidate path not yet among the spawn roots.
pub fn merge_roots(roots: &mut Vec<String>, candidates: &Vec<String>)
    ensures
        string_views(final(roots)@) == merged(string_views(old(roots)@), string_views(candidates@)),
{
    let ghost start = string_views(roots@);
    let ghost cv = string_views(candidates@);
    let mut i: usize = 0;
    assert(cv.subrange(0, 0) =~= Seq::<Seq<char>>::empty());
    while i < candidates.len()
        invariant
            i <= candidates@.len(),
            cv == string_views(candidates@),
            string_views(roots@) == merged(start, cv.subrange(0, i as int)),
        decreases candidates@.len() - i,
    {
        assert(cv.subrange(0, i + 1).drop_last() =~= cv.subrange(0, i as int));
        assert(cv.subrange(0, i + 1).last() == candidates@[i as int]@);
        if !contains_name(roots, candidates[i].as_str()) {
            let ghost before = string_views(roots@);
            roots.push(candidates[i].clone());
            assert(string_views(roots@) =~= before.push(candidates@[i as int]@));
        }
        i += 1;
    }
    assert(cv.subrange(0, cv.len() as int) =~= cv);
}

} // verus!

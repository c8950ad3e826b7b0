//! The Substrate hooking engine's bookkeeping: its error codes, the registry
//! of named replacement functions, and the reading of the process memory map
//! (`/proc/self/maps`) to find where images are loaded.

use vstd::prelude::*;
use vstd::string::StrSliceExecFns;

use crate::text::{
    chars_of, find_char, lines, lines_of, parse_u64_radix, parse_u64_spec, slice, split_on, str_eq, string_of, trim,
    trim_chars, vec_views, words, words_from,
};

verus! {

/// Why a hook operation failed.
#[derive(Debug, Clone, Copy, PartialEq, Eq, Structural)]
pub enum HookError {
    Unsupported,
    InvalidArgument,
    Poisoned,
    Panic,
    System,
    AlreadyHooked,
    NotHooked,
    PrologueMismatch,
}

impl HookError {
    pub open spec fn code_spec(self) -> int {
        match self {
            HookError::Unsupported => -1,
            HookError::InvalidArgument => -2,
            HookError::Poisoned => -3,
            HookError::Panic => -4,
            HookError::System => -5,
            HookError::AlreadyHooked => -6,
            HookError::NotHooked => -7,
            HookError::PrologueMismatch => -8,
        }
    }

    /// The status the C interface reports for this error.
    pub fn code(&self) -> (c: i32)
        ensures
            c == self.code_spec(),
            c < 0,
    {
        match self {
            HookError::Unsupported => -1,
            HookError::InvalidArgument => -2,
            HookError::Poisoned => -3,
            HookError::Panic => -4,
            HookError::System => -5,
            HookError::AlreadyHooked => -6,
            HookError::NotHooked => -7,
            HookError::PrologueMismatch => -8,
        }
    }
}

/// The C status of a result: 0 on success, the error's code otherwise.
pub fn ffi_status(result: Result<(), HookError>) -> (c: i32)
    ensures
        c == match result {
            Ok(()) => 0,
            Err(e) => e.code_spec(),
        },
{
    match result {
        Ok(()) => 0,
        Err(e) => e.code(),
    }
}

/// Replacement functions registered by name. `H` is the function handle.
pub struct NamedHooks<H> {
    /// Entries with distinct names, in registration order.
    pub entries: Vec<(String, H)>,
}

pub open spec fn names_distinct<H>(e: Seq<(String, H)>) -> bool {
    forall|i: int, j: int| 0 <= i < j < e.len() ==> e[i].0@ != e[j].0@
}

/// The registry as a map from name to handle.
pub open spec fn entries_map<H>(e: Seq<(String, H)>) -> Map<Seq<char>, H>
    decreases e.len(),
{
    if e.len() == 0 {
        Map::empty()
    } else {
        entries_map(e.drop_last()).insert(e.last().0@, e.last().1)
    }
}

proof fn lemma_entries_map_dom<H>(e: Seq<(String, H)>)
    requires
        names_distinct(e),
    ensures
        forall|k: Seq<char>| #[trigger] entries_map(e).contains_key(k) <==> exists|i: int| 0 <= i < e.len() && e[i].0@ == k,
        forall|i: int| 0 <= i < e.len() ==> entries_map(e)[#[trigger] e[i].0@] == e[i].1,
    decreases e.len(),
{
    if e.len() > 0 {
        let d = e.drop_last();
        assert(names_distinct(d)) by {
            assert forall|i: int, j: int| 0 <= i < j < d.len() implies d[i].0@ != d[j].0@ by {
                assert(d[i] == e[i]);
                assert(d[j] == e[j]);
            }
        }
        lemma_entries_map_dom(d);
        assert forall|k: Seq<char>| #[trigger] entries_map(e).contains_key(k) <==> exists|i: int| 0 <= i < e.len() && e[i].0@ == k by {
            if entries_map(e).contains_key(k) {
                if k == e.last().0@ {
                    assert(e[e.len() - 1].0@ == k);
                } else {
                    assert(entries_map(d).contains_key(k));
                    let i = choose|i: int| 0 <= i < d.len() && d[i].0@ == k;
                    assert(e[i] == d[i]);
                }
            }
            if exists|i: int| 0 <= i < e.len() && e[i].0@ == k {
                let i = choose|i: int| 0 <= i < e.len() && e[i].0@ == k;
                if i < d.len() {
                    assert(d[i] == e[i]);
                    assert(entries_map(d).contains_key(k));
                }
            }
        }
        assert forall|i: int| 0 <= i < e.len() implies entries_map(e)[#[trigger] e[i].0@] == e[i].1 by {
            if i < d.len() {
                assert(d[i] == e[i]);
                assert(e[i].0@ != e.last().0@);
            }
        }
    }
}

impl<H: Copy> NamedHooks<H> {
    pub open spec fn wf(&self) -> bool {
        names_distinct(self.entries@)
    }

    pub open spec fn view_map(&self) -> Map<Seq<char>, H> {
        entries_map(self.entries@)
    }

    pub fn new() -> (r: NamedHooks<H>)
        ensures
            r.wf(),
            r.view_map() == Map::<Seq<char>, H>::empty(),
    {
        NamedHooks { entries: Vec::new() }
    }

    fn position(&self, name: &str) -> (r: Option<usize>)
        requires
            self.wf(),
        ensures
            r matches Some(i) ==> i < self.entries@.len() && self.entries@[i as int].0@ == name@,
            r is None ==> !self.view_map().contains_key(name@),
    {
        proof {
            lemma_entries_map_dom(self.entries@);
        }
        let mut i: usize = 0;
        while i < self.entries.len()
            invariant
                i <= self.entries@.len(),
                forall|k: int| 0 <= k < i ==> self.entries@[k].0@ != name@,
            decreases self.entries@.len() - i,
        {
            if str_eq(self.entries[i].0.as_str(), name) {
                return Some(i);
            }
            i += 1;
        }
        None
    }

    /// The replacement registered under `name`, if any.
    pub fn get(&self, name: &str) -> (r: Option<H>)
        requires
            self.wf(),
        ensures
            r == (if self.view_map().contains_key(name@) { Some(self.view_map()[name@]) } else { None::<H> }),
    {
        proof {
            lemma_entries_map_dom(self.entries@);
        }
        match self.position(name) {
            Some(i) => Some(self.entries[i].1),
            None => None,
        }
    }

    /// Registers `replacement` under `name`, replacing an earlier one. A
    /// blank name is refused.
    pub fn register(&mut self, name: &str, replacement: H) -> (r: Result<(), HookError>)
        requires
            old(self).wf(),
        ensures
            final(self).wf(),
            trim(name@).len() == 0 ==> r == Err::<(), HookError>(HookError::InvalidArgument) && final(self).view_map() == old(self).view_map(),
            trim(name@).len() > 0 ==> r is Ok && final(self).view_map() == old(self).view_map().insert(name@, replacement),
    {
        let chars = chars_of(name);
        let t = trim_chars(chars.as_slice());
        if t.len() == 0 {
            return Err(HookError::InvalidArgument);
        }
        proof {
            lemma_entries_map_dom(self.entries@);
        }
        let ghost old_map = self.view_map();
        match self.position(name) {
            Some(i) => {
                let ghost before = self.entries@;
                self.entries.set(i, (string_of(chars.as_slice()), replacement));
                proof {
                    let e = self.entries@;
                    assert forall|a: int, b: int| 0 <= a < b < e.len() implies e[a].0@ != e[b].0@ by {
                        assert(before[a].0@ != before[b].0@);
                        if a == i {
                            assert(e[a].0@ == before[a].0@);
                        }
                        if b == i {
                            assert(e[b].0@ == before[b].0@);
                        }
                    }
                    lemma_entries_map_dom(e);
                    assert forall|k: Seq<char>| #[trigger] self.view_map().contains_key(k) <==> old_map.insert(name@, replacement).contains_key(k) by {
                        if exists|j: int| 0 <= j < before.len() && before[j].0@ == k {
                            let j = choose|j: int| 0 <= j < before.len() && before[j].0@ == k;
                            assert(e[j].0@ == k);
                        }
                        if exists|j: int| 0 <= j < e.len() && e[j].0@ == k {
                            let j = choose|j: int| 0 <= j < e.len() && e[j].0@ == k;
                            assert(before[j].0@ == k);
                        }
                    }
                    assert forall|k: Seq<char>| #[trigger] self.view_map().contains_key(k) implies self.view_map()[k] == old_map.insert(name@, replacement)[k] by {
                        let j = choose|j: int| 0 <= j < e.len() && e[j].0@ == k;
                        if j != i {
                            assert(e[j] == before[j]);
                        }
                    }
                    assert(self.view_map() =~= old_map.insert(name@, replacement));
                }
            },
            None => {
                let ghost before = self.entries@;
                self.entries.push((string_of(chars.as_slice()), replacement));
                proof {
                    let e = self.entries@;
                    assert forall|a: int, b: int| 0 <= a < b < e.len() implies e[a].0@ != e[b].0@ by {
                        if b < before.len() {
                            assert(before[a].0@ != before[b].0@);
                        } else {
                            assert(e[a] == before[a]);
                            assert(entries_map(before).contains_key(before[a].0@));
                        }
                    }
                    assert(e.drop_last() =~= before);
                }
            },
        }
        Ok(())
    }

    /// Removes the replacement registered under `name`, if any.
    pub fn clear(&mut self, name: &str) -> (r: Result<(), HookError>)
        requires
            old(self).wf(),
        ensures
            final(self).wf(),
            r is Ok,
            final(self).view_map() == old(self).view_map().remove(name@),
    {
        proof {
            lemma_entries_map_dom(self.entries@);
        }
        let ghost old_map = self.view_map();
        match self.position(name) {
            Some(i) => {
                let ghost before = self.entries@;
                self.entries.remove(i);
                proof {
                    let e = self.entries@;
                    assert forall|a: int, b: int| 0 <= a < b < e.len() implies e[a].0@ != e[b].0@ by {
                        let a2 = if a < i { a } else { a + 1 };
                        let b2 = if b < i { b } else { b + 1 };
                        assert(e[a] == before[a2] && e[b] == before[b2]);
                    }
                    lemma_entries_map_dom(e);
                    assert forall|k: Seq<char>| #[trigger] self.view_map().contains_key(k) <==> old_map.remove(name@).contains_key(k) by {
                        if exists|j: int| 0 <= j < before.len() && before[j].0@ == k {
                            let j = choose|j: int| 0 <= j < before.len() && before[j].0@ == k;
                            if j < i {
                                assert(e[j] == before[j]);
                            } else if j > i {
                                assert(e[j - 1] == before[j]);
                            }
                        }
                        if exists|j: int| 0 <= j < e.len() && e[j].0@ == k {
                            let j = choose|j: int| 0 <= j < e.len() && e[j].0@ == k;
                            let j2 = if j < i { j } else { j + 1 };
                            assert(e[j] == before[j2]);
                            assert(before[j2].0@ != before[i as int].0@);
                        }
                    }
                    assert forall|k: Seq<char>| #[trigger] self.view_map().contains_key(k) implies self.view_map()[k] == old_map.remove(name@)[k] by {
                        let j = choose|j: int| 0 <= j < e.len() && e[j].0@ == k;
                        let j2 = if j < i { j } else { j + 1 };
                        assert(e[j] == before[j2]);
                    }
                    assert(self.view_map() =~= old_map.remove(name@));
                }
            },
            None => {
                assert(self.view_map() =~= old_map.remove(name@));
            },
        }
        Ok(())
    }

    /// The function to call for `name`: its registered replacement, or
    /// `original`.
    pub fn call_target(&self, name: &str, original: H) -> (f: H)
        requires
            self.wf(),
        ensures
            f == (if self.view_map().contains_key(name@) { self.view_map()[name@] } else { original }),
    {
        match self.get(name) {
            Some(h) => h,
            None => original,
        }
    }
}

/// A registered replacement is what a call by name reaches; after clearing
/// it, the original is reached again.
pub proof fn law_named_hooks_override(m: Map<Seq<char>, u64>, name: Seq<char>, replacement: u64, original: u64)
    ensures
        m.insert(name, replacement).contains_key(name) && m.insert(name, replacement)[name] == replacement,
        !m.insert(name, replacement).remove(name).contains_key(name),
{
}

/// The last component of a path (`Path::file_name`): `None` for a path that
/// ends in `..` or has no component.
pub open spec fn file_name(path: Seq<char>) -> Option<Seq<char>> {
    let comps = split_on(path, '/').filter(|c: Seq<char>| c.len() > 0 && c != "."@);
    if comps.len() == 0 || comps.last() == ".."@ {
        None
    } else {
        Some(comps.last())
    }
}

/// Whether a mapping's path is `image` or ends in it as its file name.
pub open spec fn path_matches(path: Seq<char>, image: Seq<char>) -> bool {
    path == image || file_name(path) == Some(image)
}

/// A hexadecimal address as `usize::from_str_radix(_, 16)` reads it.
pub open spec fn hex_usize(s: Seq<char>) -> Option<usize> {
    match parse_u64_spec(s, 16) {
        Ok(v) => if v <= usize::MAX { Some(v as usize) } else { None },
        Err(_) => None,
    }
}

/// The start address of a `start-end` range.
pub open spec fn range_start(range: Seq<char>) -> Option<usize> {
    hex_usize(split_on(range, '-')[0])
}

/// One `/proc/self/maps` line as (start address, path), when it has both.
pub open spec fn map_entry(line: Seq<char>) -> Option<(usize, Seq<char>)> {
    let w = words_from(line, 0);
    if w.len() < 6 {
        None
    } else {
        match range_start(w[0]) {
            Some(start) => Some((start, w[5])),
            None => None,
        }
    }
}

pub open spec fn min_opt(a: Option<usize>, b: usize) -> Option<usize> {
    match a {
        Some(x) => Some(if x <= b { x } else { b }),
        None => Some(b),
    }
}

/// The lowest start address among the mappings of `image`.
pub open spec fn lowest_base(ls: Seq<Seq<char>>, image: Seq<char>) -> Option<usize>
    decreases ls.len(),
{
    if ls.len() == 0 {
        None
    } else {
        let prev = lowest_base(ls.drop_last(), image);
        match map_entry(ls.last()) {
            Some((start, path)) => if path_matches(path, image) { min_opt(prev, start) } else { prev },
            None => prev,
        }
    }
}

/// The pieces of `s` before its first `c` (`split(c).next()`).
fn first_piece(s: &[char], c: char) -> (r: Vec<char>)
    ensures
        r@ == split_on(s@, c)[0],
{
    let ghost sp = split_on(s@, c);
    let mut i: usize = 0;
    assert(split_on(s@.subrange(0, 0), c) =~= seq![Seq::<char>::empty()]);
    while i < s.len() && s[i] != c
        invariant
            i <= s@.len(),
            forall|k: int| 0 <= k < i ==> s@[k] != c,
            split_on(s@.subrange(0, i as int), c)[0] == s@.subrange(0, i as int),
            split_on(s@.subrange(0, i as int), c).len() == 1,
        decreases s@.len() - i,
    {
        assert(s@.subrange(0, i + 1).drop_last() =~= s@.subrange(0, i as int));
        assert(s@.subrange(0, i as int).push(s@[i as int]) =~= s@.subrange(0, i + 1));
        i += 1;
    }
    proof {
        lemma_split_first(s@, c, i as int);
    }
    slice(s, 0, i)
}

proof fn lemma_split_first(s: Seq<char>, c: char, k: int)
    requires
        0 <= k <= s.len(),
        split_on(s.subrange(0, k), c)[0] == s.subrange(0, k),
        split_on(s.subrange(0, k), c).len() == 1,
        k < s.len() ==> s[k] == c,
    ensures
        split_on(s, c)[0] == s.subrange(0, k),
{
    if k == s.len() {
        assert(s.subrange(0, k) =~= s);
    } else {
        assert(s.subrange(0, k + 1).drop_last() =~= s.subrange(0, k));
        lemma_split_keep_first(s, c, k + 1, s.subrange(0, k));
    }
}

proof fn lemma_split_keep_first(s: Seq<char>, c: char, m: int, first: Seq<char>)
    requires
        0 < m <= s.len(),
        split_on(s.subrange(0, m), c)[0] == first,
        split_on(s.subrange(0, m), c).len() >= 2,
    ensures
        split_on(s, c)[0] == first,
    decreases s.len() - m,
{
    if m == s.len() {
        assert(s.subrange(0, m) =~= s);
    } else {
        assert(s.subrange(0, m + 1).drop_last() =~= s.subrange(0, m));
        let p = split_on(s.subrange(0, m), c);
        let q = split_on(s.subrange(0, m + 1), c);
        assert(q[0] == p[0] && q.len() >= 2);
        lemma_split_keep_first(s, c, m + 1, first);
    }
}

pub open spec fn keep_component(c: Seq<char>) -> bool {
    c.len() > 0 && c != "."@
}

/// `Path::file_name`.
pub fn file_name_of(path: &[char]) -> (r: Option<Vec<char>>)
    ensures
        match file_name(path@) {
            Some(n) => r matches Some(v) && v@ == n,
            None => r is None,
        },
{
    let ghost keep = |c: Seq<char>| c.len() > 0 && c != "."@;
    let dot = chars_of(".");
    let dotdot = chars_of("..");
    proof {
        reveal_strlit(".");
        reveal_strlit("..");
    }
    let mut last: Option<Vec<char>> = None;
    let mut cur: Vec<char> = Vec::new();
    let ghost mut raw: Seq<Seq<char>> = Seq::empty();
    let mut i: usize = 0;
    assert(path@.subrange(0, 0) =~= Seq::<char>::empty());
    while i < path.len()
        invariant
            i <= path@.len(),
            dot@ == "."@,
            dotdot@ == ".."@,
            split_on(path@.subrange(0, i as int), '/') == raw.push(cur@),
            keep == (|c: Seq<char>| c.len() > 0 && c != "."@),
            raw.filter(keep).len() == 0 ==> last is None,
            raw.filter(keep).len() > 0 ==> (last matches Some(l) && l@ == raw.filter(keep).last()),
        decreases path@.len() - i,
    {
        let c = path[i];
        proof {
            reveal_strlit(".");
        }
        assert(path@.subrange(0, i + 1).drop_last() =~= path@.subrange(0, i as int));
        if c == '/' {
            let ghost old_raw = raw;
            let is_dot = cur.len() == 1 && cur[0] == '.';
            proof {
                if cur@ == "."@ {
                    assert(cur@.len() == 1 && cur@[0] == '.');
                }
                if is_dot {
                    assert(cur@ =~= "."@);
                }
                raw = raw.push(cur@);
                reveal(Seq::filter);
                assert(raw.drop_last() =~= old_raw);
            }
            let mut fresh: Vec<char> = Vec::new();
            std::mem::swap(&mut fresh, &mut cur);
            if fresh.len() > 0 && !is_dot {
                last = Some(fresh);
            }
            assert(split_on(path@.subrange(0, i + 1), '/') =~= raw.push(cur@));
        } else {
            cur.push(c);
            assert(split_on(path@.subrange(0, i + 1), '/') =~= raw.push(cur@));
        }
        i += 1;
    }
    assert(path@.subrange(0, path@.len() as int) =~= path@);
    let ghost all = raw.push(cur@);
    proof {
        reveal(Seq::filter);
        assert(all.drop_last() =~= raw);
        if cur@ == "."@ {
            assert(cur@.len() == 1 && cur@[0] == '.');
        }
    }
    let cur_is_dot = cur.len() == 1 && cur[0] == '.';
    proof {
        if cur_is_dot {
            assert(cur@ =~= "."@);
        }
    }
    let result: Option<Vec<char>> = if cur.len() > 0 && !cur_is_dot { Some(cur) } else { last };
    assert(split_on(path@, '/').filter(keep) == all.filter(keep));
    match result {
        Some(v) => {
            let is_parent = v.len() == 2 && v[0] == '.' && v[1] == '.';
            proof {
                if v@ == ".."@ {
                    assert(v@.len() == 2 && v@[0] == '.' && v@[1] == '.');
                }
                if is_parent {
                    assert(v@ =~= ".."@);
                }
            }
            if is_parent {
                None
            } else {
                Some(v)
            }
        },
        None => None,
    }
}

fn path_matches_exec(path: &[char], image: &[char]) -> (b: bool)
    ensures
        b == path_matches(path@, image@),
{
    if slices_equal(path, image) {
        return true;
    }
    match file_name_of(path) {
        Some(n) => slices_equal(n.as_slice(), image),
        None => false,
    }
}

fn slices_equal(a: &[char], b: &[char]) -> (r: bool)
    ensures
        r == (a@ == b@),
{
    if a.len() != b.len() {
        return false;
    }
    let mut i: usize = 0;
    while i < a.len()
        invariant
            a@.len() == b@.len(),
            i <= a@.len(),
            forall|k: int| 0 <= k < i ==> a@[k] == b@[k],
        decreases a@.len() - i,
    {
        if a[i] != b[i] {
            return false;
        }
        i += 1;
    }
    assert(a@ =~= b@);
    true
}

fn map_entry_of(line: &[char]) -> (r: Option<(usize, Vec<char>)>)
    ensures
        match map_entry(line@) {
            Some((start, path)) => r matches Some((s2, p2)) && s2 == start && p2@ == path,
            None => r is None,
        },
{
    let w = words(line);
    let ghost wv = vec_views(w@);
    if w.len() < 6 {
        return None;
    }
    assert(wv[0] == w@[0]@);
    assert(wv[5] == w@[5]@);
    let first = first_piece(w[0].as_slice(), '-');
    match parse_u64_radix(first.as_slice(), 16) {
        Ok(v) => {
            if v <= usize::MAX as u64 {
                Some((v as usize, w[5].clone()))
            } else {
                None
            }
        },
        Err(_) => None,
    }
}

/// The lowest mapped address of the object whose path is (or ends in)
/// `image`, from the text of `/proc/self/maps`.
pub fn module_base_from_maps(maps: &str, image: &str) -> (r: Option<usize>)
    ensures
        r == lowest_base(lines(maps@), image@),
{
    let chars = chars_of(maps);
    let img = chars_of(image);
    let ls = lines_of(chars.as_slice());
    let ghost lv = vec_views(ls@);
    assert(lv =~= lines(maps@));
    let mut lowest: Option<usize> = None;
    let mut i: usize = 0;
    assert(lv.subrange(0, 0) =~= Seq::<Seq<char>>::empty());
    while i < ls.len()
        invariant
            i <= ls@.len(),
            lv == vec_views(ls@),
            img@ == image@,
            lowest == lowest_base(lv.subrange(0, i as int), image@),
        decreases ls@.len() - i,
    {
        assert(lv.subrange(0, i + 1).drop_last() =~= lv.subrange(0, i as int));
        assert(lv.subrange(0, i + 1).last() == ls@[i as int]@);
        match map_entry_of(ls[i].as_slice()) {
            Some((start, path)) => {
                if path_matches_exec(path.as_slice(), img.as_slice()) {
                    lowest = match lowest {
                        Some(x) => Some(if x <= start { x } else { start }),
                        None => Some(start),
                    };
                }
            },
            None => {},
        }
        i += 1;
    }
    assert(lv.subrange(0, lv.len() as int) =~= lv);
    lowest
}

/// The runtime address of the function at `rva` in `image`: the image's load
/// base plus the offset (wrapping, as the device's release build computes
/// it); 0 when no image is named or it is not loaded.
pub open spec fn resolve_rva_spec(maps: Seq<char>, image: Option<Seq<char>>, rva: usize) -> usize {
    match image {
        Some(i) => if i.len() == 0 {
            0
        } else {
            match lowest_base(lines(maps), i) {
                Some(base) => if base + rva > usize::MAX {
                    (base + rva - (usize::MAX as int + 1)) as usize
                } else {
                    (base + rva) as usize
                },
                None => 0,
            }
        },
        None => 0,
    }
}

/// Resolves a function that is no exported symbol from the image's load
/// base, given the text of `/proc/self/maps`.
pub fn resolve_rva(maps: &str, image: Option<&str>, rva: usize) -> (r: usize)
    ensures
        r == resolve_rva_spec(maps@, match image { Some(i) => Some(i@), None => None }, rva),
{
    match image {
        None => 0,
        Some(i) => {
            if i.unicode_len() == 0 {
                return 0;
            }
            match module_base_from_maps(maps, i) {
                Some(base) => {
                    let r = base.wrapping_add(rva);
                    r
                },
                None => 0,
            }
        },
    }
}

/// A loaded object: its path and lowest mapped address.
pub struct LoadedModule {
    pub path: String,
    pub base: usize,
}

/// The index of the module with `path`.
pub open spec fn module_index(ms: Seq<(Seq<char>, usize)>, path: Seq<char>) -> Option<int>
    decreases ms.len(),
{
    if ms.len() == 0 {
        None
    } else {
        match module_index(ms.drop_last(), path) {
            Some(i) => Some(i),
            None => if ms.last().0 == path { Some(ms.len() - 1) } else { None },
        }
    }
}

/// The modules after the mapping lines `ls`: each absolute path once, in the
/// order first seen, with its lowest start address.
pub open spec fn modules_after(ls: Seq<Seq<char>>) -> Seq<(Seq<char>, usize)>
    decreases ls.len(),
{
    if ls.len() == 0 {
        Seq::empty()
    } else {
        let prev = modules_after(ls.drop_last());
        match map_entry(ls.last()) {
            Some((start, path)) => if path.len() > 0 && path[0] == '/' {
                match module_index(prev, path) {
                    Some(k) => prev.update(k, (path, if prev[k].1 <= start { prev[k].1 } else { start })),
                    None => prev.push((path, start)),
                }
            } else {
                prev
            },
            None => prev,
        }
    }
}

pub open spec fn modules_view(v: Seq<LoadedModule>) -> Seq<(Seq<char>, usize)> {
    v.map_values(|m: LoadedModule| (m.path@, m.base))
}

proof fn lemma_module_index(ms: Seq<(Seq<char>, usize)>, path: Seq<char>)
    ensures
        module_index(ms, path) matches Some(k) ==> 0 <= k < ms.len() && ms[k].0 == path,
        module_index(ms, path) is None ==> forall|k: int| 0 <= k < ms.len() ==> ms[k].0 != path,
    decreases ms.len(),
{
    if ms.len() > 0 {
        lemma_module_index(ms.drop_last(), path);
        assert forall|k: int| 0 <= k < ms.len() - 1 implies ms.drop_last()[k] == ms[k] by {}
    }
}

proof fn lemma_module_index_none(ms: Seq<(Seq<char>, usize)>, path: Seq<char>)
    requires
        forall|m: int| 0 <= m < ms.len() ==> ms[m].0 != path,
    ensures
        module_index(ms, path) is None,
    decreases ms.len(),
{
    if ms.len() > 0 {
        let d = ms.drop_last();
        assert forall|m: int| 0 <= m < d.len() implies d[m].0 != path by {
            assert(d[m] == ms[m]);
        }
        lemma_module_index_none(d, path);
    }
}

proof fn lemma_module_index_first(ms: Seq<(Seq<char>, usize)>, path: Seq<char>, k: int)
    requires
        0 <= k < ms.len(),
        forall|m: int| 0 <= m < k ==> ms[m].0 != path,
        ms[k].0 == path,
    ensures
        module_index(ms, path) == Some(k),
    decreases ms.len(),
{
    let d = ms.drop_last();
    if k < ms.len() - 1 {
        assert forall|m: int| 0 <= m < k implies d[m].0 != path by {
            assert(d[m] == ms[m]);
        }
        assert(d[k] == ms[k]);
        lemma_module_index_first(d, path, k);
    } else {
        assert forall|m: int| 0 <= m < d.len() implies d[m].0 != path by {
            assert(d[m] == ms[m]);
        }
        lemma_module_index_none(d, path);
    }
}

fn find_module(ms: &Vec<LoadedModule>, path: &str) -> (r: Option<usize>)
    ensures
        r matches Some(k) ==> k < ms@.len() && module_index(modules_view(ms@), path@) == Some(k as int),
        r is None ==> module_index(modules_view(ms@), path@) is None,
{
    let ghost mv = modules_view(ms@);
    let mut k: usize = 0;
    while k < ms.len()
        invariant
            k <= ms@.len(),
            mv == modules_view(ms@),
            forall|m: int| 0 <= m < k ==> mv[m].0 != path@,
        decreases ms@.len() - k,
    {
        if str_eq(ms[k].path.as_str(), path) {
            proof {
                lemma_module_index_first(mv, path@, k as int);
            }
            return Some(k);
        }
        k += 1;
    }
    proof {
        lemma_module_index_none(mv, path@);
    }
    None
}

/// The objects mapped into the process, from the text of `/proc/self/maps`.
pub fn loaded_modules(maps: &str) -> (ms: Vec<LoadedModule>)
    ensures
        modules_view(ms@) == modules_after(lines(maps@)),
{
    let chars = chars_of(maps);
    let ls = lines_of(chars.as_slice());
    let ghost lv = vec_views(ls@);
    assert(lv =~= lines(maps@));
    let mut out: Vec<LoadedModule> = Vec::new();
    let mut i: usize = 0;
    assert(lv.subrange(0, 0) =~= Seq::<Seq<char>>::empty());
    assert(modules_view(out@) =~= Seq::<(Seq<char>, usize)>::empty());
    while i < ls.len()
        invariant
            i <= ls@.len(),
            lv == vec_views(ls@),
            modules_view(out@) == modules_after(lv.subrange(0, i as int)),
        decreases ls@.len() - i,
    {
        assert(lv.subrange(0, i + 1).drop_last() =~= lv.subrange(0, i as int));
        assert(lv.subrange(0, i + 1).last() == ls@[i as int]@);
        let ghost prev = modules_view(out@);
        match map_entry_of(ls[i].as_slice()) {
            Some((start, path)) => {
                if path.len() > 0 && path[0] == '/' {
                    proof {
                        lemma_module_index(prev, path@);
                    }
                    let pstr = string_of(path.as_slice());
                    let pos = find_module(&out, pstr.as_str());
                    let found = pos.is_some();
                    let k: usize = match pos {
                        Some(k) => k,
                        None => 0,
                    };
                    if found {
                        let b = out[k].base;
                        let nb = if b <= start { b } else { start };
                        let old_path = out[k].path.clone();
                        out.set(k, LoadedModule { path: old_path, base: nb });
                        assert(modules_view(out@) =~= prev.update(k as int, (path@, nb)));
                    } else {
                        out.push(LoadedModule { path: pstr, base: start });
                        assert(modules_view(out@) =~= prev.push((path@, start)));
                    }
                }
            },
            None => {},
        }
        i += 1;
    }
    assert(lv.subrange(0, lv.len() as int) =~= lv);
    out
}

/// Whether an import hook may be attempted: a symbol name and a non-null
/// replacement are needed.
pub fn check_import_args(symbol: &str, replacement: usize) -> (r: Result<(), HookError>)
    ensures
        r == (if symbol@.len() == 0 || replacement == 0 { Err(HookError::InvalidArgument) } else { Ok::<(), HookError>(()) }),
{
    if symbol.unicode_len() == 0 || replacement == 0 {
        Err(HookError::InvalidArgument)
    } else {
        Ok(())
    }
}

/// Whether a loaded module is one an import hook targets: any module when no
/// image is named, else the one whose path is (or ends in) the image.
pub fn module_selected(path: &str, image: Option<&str>) -> (b: bool)
    ensures
        b == match image {
            None => true,
            Some(w) => path_matches(path@, w@),
        },
{
    match image {
        None => true,
        Some(w) => {
            let p = chars_of(path);
            let i = chars_of(w);
            path_matches_exec(p.as_slice(), i.as_slice())
        },
    }
}

/// What the import hook does after one module was patched (or not).
#[derive(Debug, Clone, Copy, PartialEq, Eq, Structural)]
pub enum ImportStep {
    /// Go on with the next module.
    Next,
    /// The named image is hooked: stop.
    Done,
    /// Give up with this error.
    Fail(HookError),
}

/// The progress of an import hook over the loaded modules.
pub struct ImportHook {
    /// Whether one image was named (then the first success ends the hook).
    pub by_image: bool,
    pub hooked: bool,
    /// The first original GOT value replaced (0 while none).
    pub first_orig: usize,
}

impl ImportHook {
    pub fn new(by_image: bool) -> (h: ImportHook)
        ensures
            h.by_image == by_image,
            !h.hooked,
            h.first_orig == 0,
    {
        ImportHook { by_image, hooked: false, first_orig: 0 }
    }

    /// Records what patching one module gave: the original values of the
    /// slots it rewrote, or its error. A module without the import, or one
    /// that could not be read or parsed, is passed over; another error ends
    /// the hook.
    pub fn record(&mut self, result: &Result<Vec<usize>, HookError>) -> (step: ImportStep)
        ensures
            final(self).by_image == old(self).by_image,
            match result {
                Ok(origs) => if origs@.len() > 0 {
                    &&& final(self).hooked
                    &&& final(self).first_orig == (if old(self).first_orig == 0 { origs@[0] } else { old(self).first_orig })
                    &&& step == (if old(self).by_image { ImportStep::Done } else { ImportStep::Next })
                } else {
                    &&& step == ImportStep::Next
                    &&& final(self).hooked == old(self).hooked
                    &&& final(self).first_orig == old(self).first_orig
                },
                Err(e) => {
                    &&& final(self).hooked == old(self).hooked
                    &&& final(self).first_orig == old(self).first_orig
                    &&& step == (if *e == HookError::System || *e == HookError::InvalidArgument {
                        ImportStep::Next
                    } else {
                        ImportStep::Fail(*e)
                    })
                },
            },
    {
        match result {
            Ok(origs) => {
                if origs.len() > 0 {
                    if self.first_orig == 0 {
                        self.first_orig = origs[0];
                    }
                    self.hooked = true;
                    if self.by_image {
                        ImportStep::Done
                    } else {
                        ImportStep::Next
                    }
                } else {
                    ImportStep::Next
                }
            },
            Err(e) => match e {
                HookError::System | HookError::InvalidArgument => ImportStep::Next,
                other => ImportStep::Fail(*other),
            },
        }
    }

    /// The outcome once the modules are done: the first original value, or
    /// `System` when no module was hooked.
    pub fn finish(&self) -> (r: Result<usize, HookError>)
        ensures
            r == (if self.hooked { Ok::<usize, HookError>(self.first_orig) } else { Err(HookError::System) }),
    {
        if self.hooked {
            Ok(self.first_orig)
        } else {
            Err(HookError::System)
        }
    }
}

/// Bytes of prologue a checked hook must be shown before it patches.
pub const PATCH_LEN: usize = 8;

/// Whether a checked hook's expected prologue is described well enough: it
/// must be given, and cover at least the bytes about to be overwritten.
pub fn validate_prologue_request(expected_given: bool, expected_len: usize) -> (r: Result<(), HookError>)
    ensures
        r == (if !expected_given || expected_len == 0 || expected_len < PATCH_LEN {
            Err(HookError::InvalidArgument)
        } else {
            Ok::<(), HookError>(())
        }),
{
    if !expected_given || expected_len == 0 {
        return Err(HookError::InvalidArgument);
    }
    if expected_len < PATCH_LEN {
        return Err(HookError::InvalidArgument);
    }
    Ok(())
}

/// Whether the code at the target is the expected prologue.
pub fn match_prologue(actual: &[u8], expected: &[u8]) -> (r: Result<(), HookError>)
    ensures
        r == (if actual@ == expected@ { Ok::<(), HookError>(()) } else { Err(HookError::PrologueMismatch) }),
{
    if actual.len() != expected.len() {
        return Err(HookError::PrologueMismatch);
    }
    let mut i: usize = 0;
    while i < actual.len()
        invariant
            actual@.len() == expected@.len(),
            i <= actual@.len(),
            forall|k: int| 0 <= k < i ==> actual@[k] == expected@[k],
        decreases actual@.len() - i,
    {
        if actual[i] != expected[i] {
            return Err(HookError::PrologueMismatch);
        }
        i += 1;
    }
    assert(actual@ =~= expected@);
    Ok(())
}

/// The address that identifies a hook at `target`.
pub open spec fn code_key(target: usize, thumb: bool) -> usize {
    if thumb { (target / 2 * 2) as usize } else { target }
}

/// The address that identifies a hook: on Thumb-capable ARM the low bit
/// only selects the instruction set, so it is cleared.
pub fn code_address(target: usize, thumb: bool) -> (a: usize)
    ensures
        a == code_key(target, thumb),
{
    if thumb {
        let a = target & !1usize;
        assert(target & !1usize == target / 2 * 2) by (bit_vector);
        a
    } else {
        target
    }
}

/// The inline hooks in place, by code address.
pub struct HookTable {
    keys: Vec<usize>,
}

impl HookTable {
    /// The code addresses that carry a hook.
    pub closed spec fn view_set(&self) -> Set<usize> {
        self.keys@.to_set()
    }

    /// No address is recorded twice.
    pub closed spec fn wf(&self) -> bool {
        self.keys@.no_duplicates()
    }

    /// What installing a hook at `target` answers before any code is patched.
    pub open spec fn install_outcome(&self, target: usize, replacement: usize, thumb: bool) -> Result<(), HookError> {
        if target == 0 || replacement == 0 {
            Err(HookError::InvalidArgument)
        } else if self.view_set().contains(code_key(target, thumb)) {
            Err(HookError::AlreadyHooked)
        } else {
            Ok(())
        }
    }

    /// What removing the hook at `target` answers before any code is restored.
    pub open spec fn remove_outcome(&self, target: usize, thumb: bool) -> Result<(), HookError> {
        if target == 0 {
            Err(HookError::InvalidArgument)
        } else if !self.view_set().contains(code_key(target, thumb)) {
            Err(HookError::NotHooked)
        } else {
            Ok(())
        }
    }

    pub fn new() -> (t: HookTable)
        ensures
            t.wf(),
            t.view_set() == Set::<usize>::empty(),
    {
        let t = HookTable { keys: Vec::new() };
        assert(t.view_set() =~= Set::<usize>::empty());
        t
    }

    /// Whether a hook is recorded at the code address `key`.
    pub fn contains(&self, key: usize) -> (b: bool)
        ensures
            b == self.view_set().contains(key),
    {
        match self.find(key) {
            Some(i) => {
                assert(self.keys@.contains(key)) by {
                    assert(self.keys@[i as int] == key);
                }
                true
            },
            None => false,
        }
    }

    fn find(&self, key: usize) -> (r: Option<usize>)
        ensures
            r matches Some(i) ==> i < self.keys@.len() && self.keys@[i as int] == key,
            r is None ==> !self.view_set().contains(key),
    {
        let mut i: usize = 0;
        while i < self.keys.len()
            invariant
                i <= self.keys@.len(),
                forall|k: int| 0 <= k < i ==> self.keys@[k] != key,
            decreases self.keys@.len() - i,
        {
            if self.keys[i] == key {
                return Some(i);
            }
            i += 1;
        }
        None
    }

    /// Whether a hook at `target` may be installed: both addresses must be
    /// given, and the target not hooked already.
    pub fn check_install(&self, target: usize, replacement: usize, thumb: bool) -> (r: Result<(), HookError>)
        ensures
            r == self.install_outcome(target, replacement, thumb),
    {
        if target == 0 || replacement == 0 {
            return Err(HookError::InvalidArgument);
        }
        let key = code_address(target, thumb);
        if self.contains(key) {
            Err(HookError::AlreadyHooked)
        } else {
            Ok(())
        }
    }

    /// The checks of a hook that first verifies the target's prologue:
    /// `expected` is the prologue the caller describes (absent for a null
    /// pointer), `actual` the bytes found at the code address, as many as
    /// `expected` holds.
    pub fn check_checked_install(
        &self,
        target: usize,
        replacement: usize,
        thumb: bool,
        expected: Option<&[u8]>,
        actual: &[u8],
    ) -> (r: Result<(), HookError>)
        ensures
            r == (match expected {
                None => Err(HookError::InvalidArgument),
                Some(e) => if e@.len() < PATCH_LEN {
                    Err(HookError::InvalidArgument)
                } else if actual@ != e@ {
                    Err(HookError::PrologueMismatch)
                } else {
                    self.install_outcome(target, replacement, thumb)
                },
            }),
    {
        let (given, len) = match expected {
            Some(e) => (true, e.len()),
            None => (false, 0),
        };
        match validate_prologue_request(given, len) {
            Err(e) => return Err(e),
            Ok(()) => {},
        }
        match expected {
            Some(e) => {
                match match_prologue(actual, e) {
                    Err(err) => return Err(err),
                    Ok(()) => {},
                }
            },
            None => {},
        }
        self.check_install(target, replacement, thumb)
    }

    /// Installs a hook at `target`: when the checks pass, `install` patches
    /// the code, and the hook is recorded if it succeeded.
    pub fn hook_function<F: FnOnce() -> Result<(), HookError>>(
        &mut self,
        target: usize,
        replacement: usize,
        thumb: bool,
        install: F,
    ) -> (r: Result<(), HookError>)
        requires
            old(self).wf(),
            install.requires(()),
        ensures
            final(self).wf(),
            old(self).install_outcome(target, replacement, thumb) is Err ==> r == old(self).install_outcome(
                target,
                replacement,
                thumb,
            ),
            old(self).install_outcome(target, replacement, thumb) is Ok ==> install.ensures((), r),
            r is Ok ==> old(self).install_outcome(target, replacement, thumb) is Ok && final(self).view_set()
                == old(self).view_set().insert(code_key(target, thumb)),
            r is Err ==> final(self).view_set() == old(self).view_set(),
    {
        match self.check_install(target, replacement, thumb) {
            Err(e) => return Err(e),
            Ok(()) => {},
        }
        let key = code_address(target, thumb);
        let installed = install();
        if installed.is_ok() {
            self.insert(key);
        }
        installed
    }

    /// Installs a hook at `target` after checking that its prologue is the
    /// one expected: the checks of `check_checked_install`, then those of
    /// `hook_function`.
    pub fn record_raw_hook_checked<F: FnOnce() -> Result<(), HookError>>(
        &mut self,
        target: usize,
        replacement: usize,
        thumb: bool,
        expected: Option<&[u8]>,
        actual: &[u8],
        install: F,
    ) -> (r: Result<(), HookError>)
        requires
            old(self).wf(),
            install.requires(()),
        ensures
            final(self).wf(),
            old(self).check_checked_spec(target, replacement, thumb, expected, actual) is Err ==> r == old(
                self,
            ).check_checked_spec(target, replacement, thumb, expected, actual),
            old(self).check_checked_spec(target, replacement, thumb, expected, actual) is Ok ==> install.ensures((), r),
            r is Ok ==> final(self).view_set() == old(self).view_set().insert(code_key(target, thumb)),
            r is Err ==> final(self).view_set() == old(self).view_set(),
    {
        match self.check_checked_install(target, replacement, thumb, expected, actual) {
            Err(e) => return Err(e),
            Ok(()) => {},
        }
        self.hook_function(target, replacement, thumb, install)
    }

    /// What `check_checked_install` answers.
    pub open spec fn check_checked_spec(
        &self,
        target: usize,
        replacement: usize,
        thumb: bool,
        expected: Option<&[u8]>,
        actual: &[u8],
    ) -> Result<(), HookError> {
        match expected {
            None => Err(HookError::InvalidArgument),
            Some(e) => if e@.len() < PATCH_LEN {
                Err(HookError::InvalidArgument)
            } else if actual@ != e@ {
                Err(HookError::PrologueMismatch)
            } else {
                self.install_outcome(target, replacement, thumb)
            },
        }
    }

    /// Records a hook that was installed at `key`.
    fn insert(&mut self, key: usize)
        requires
            old(self).wf(),
            !old(self).view_set().contains(key),
        ensures
            final(self).wf(),
            final(self).view_set() == old(self).view_set().insert(key),
    {
        let ghost before = self.keys@;
        self.keys.push(key);
        proof {
            assert(self.keys@ == before.push(key));
            assert(!before.contains(key));
            assert(self.keys@.no_duplicates()) by {
                assert forall|a: int, b: int| 0 <= a < self.keys@.len() && 0 <= b < self.keys@.len() && a != b
                    implies self.keys@[a] != self.keys@[b] by {
                    if a < before.len() && b < before.len() {
                    } else if a == before.len() {
                        assert(before[b] == self.keys@[b]);
                    } else {
                        assert(before[a] == self.keys@[a]);
                    }
                }
            }
            assert(self.keys@.to_set() =~= before.to_set().insert(key)) by {
                assert forall|x: usize| self.keys@.to_set().contains(x) <==> before.to_set().insert(key).contains(x) by {
                    if self.keys@.contains(x) && x != key {
                        let k = choose|k: int| 0 <= k < self.keys@.len() && self.keys@[k] == x;
                        assert(before[k] == x);
                    }
                    if before.contains(x) {
                        let k = choose|k: int| 0 <= k < before.len() && before[k] == x;
                        assert(self.keys@[k] == x);
                    }
                    if x == key {
                        assert(self.keys@[self.keys@.len() - 1] == key);
                    }
                }
            }
        }
    }

    /// Takes the hook at `target` out of the table: `InvalidArgument` for a
    /// null target, `NotHooked` when none is recorded there.
    pub fn remove(&mut self, target: usize, thumb: bool) -> (r: Result<(), HookError>)
        requires
            old(self).wf(),
        ensures
            final(self).wf(),
            r == old(self).remove_outcome(target, thumb),
            r is Ok ==> final(self).view_set() == old(self).view_set().remove(code_key(target, thumb)),
            r is Err ==> final(self).view_set() == old(self).view_set(),
    {
        if target == 0 {
            return Err(HookError::InvalidArgument);
        }
        let key = code_address(target, thumb);
        match self.find(key) {
            None => Err(HookError::NotHooked),
            Some(i) => {
                let ghost before = self.keys@;
                self.keys.remove(i);
                proof {
                    assert(before.contains(key)) by {
                        assert(before[i as int] == key);
                    }
                    assert(self.keys@ == before.remove(i as int));
                    assert(self.keys@.no_duplicates()) by {
                        assert forall|a: int, b: int| 0 <= a < self.keys@.len() && 0 <= b < self.keys@.len() && a != b
                            implies self.keys@[a] != self.keys@[b] by {
                            let a2 = if a < i { a } else { a + 1 };
                            let b2 = if b < i { b } else { b + 1 };
                            assert(self.keys@[a] == before[a2]);
                            assert(self.keys@[b] == before[b2]);
                        }
                    }
                    assert(self.keys@.to_set() =~= before.to_set().remove(key)) by {
                        assert forall|x: usize| self.keys@.to_set().contains(x) <==> before.to_set().remove(key).contains(x) by {
                            if self.keys@.contains(x) {
                                let k = choose|k: int| 0 <= k < self.keys@.len() && self.keys@[k] == x;
                                let k2 = if k < i { k } else { k + 1 };
                                assert(before[k2] == x);
                                assert(k2 != i);
                            }
                            if before.contains(x) && x != key {
                                let k = choose|k: int| 0 <= k < before.len() && before[k] == x;
                                assert(k != i);
                                let k2 = if k < i { k } else { k - 1 };
                                assert(self.keys@[k2] == x);
                            }
                        }
                    }
                }
                Ok(())
            },
        }
    }

    /// Uninstalls the hook at `target`: once it is taken out of the table,
    /// `uninstall` restores the code, and its outcome is the answer.
    pub fn unhook_function<F: FnOnce() -> Result<(), HookError>>(
        &mut self,
        target: usize,
        thumb: bool,
        uninstall: F,
    ) -> (r: Result<(), HookError>)
        requires
            old(self).wf(),
            uninstall.requires(()),
        ensures
            final(self).wf(),
            old(self).remove_outcome(target, thumb) is Err ==> r == old(self).remove_outcome(target, thumb)
                && final(self).view_set() == old(self).view_set(),
            old(self).remove_outcome(target, thumb) is Ok ==> uninstall.ensures((), r) && final(self).view_set()
                == old(self).view_set().remove(code_key(target, thumb)),
    {
        match self.remove(target, thumb) {
            Err(e) => Err(e),
            Ok(()) => uninstall(),
        }
    }
}

/// A hook that was installed can be uninstalled, and uninstalling it leaves
/// the table as it was before; while it is in place a second hook at the same
/// address is refused.
pub proof fn law_hook_then_unhook(t: HookTable, target: usize, replacement: usize, thumb: bool, after: HookTable)
    requires
        t.install_outcome(target, replacement, thumb) is Ok,
        after.view_set() == t.view_set().insert(code_key(target, thumb)),
    ensures
        after.install_outcome(target, replacement, thumb) == Err::<(), HookError>(HookError::AlreadyHooked),
        after.remove_outcome(target, thumb) is Ok,
        after.view_set().remove(code_key(target, thumb)) == t.view_set(),
{
    assert(after.view_set().remove(code_key(target, thumb)) =~= t.view_set());
}

} // verus!

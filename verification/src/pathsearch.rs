//! Executable lookup across a prioritized directory list.
//!
//! Two searches share the same shape: walk the directories in order, probe as
//! little as possible, and hand each candidate path to the caller, who owns
//! the filesystem. The caller reports what the probe found and the search
//! advances; a caller that stops pulling stops all probing.

use std::collections::VecDeque;
use vstd::prelude::*;
use crate::strutil::{
    chars_to_string, lower_seq, lower_vec, split_seq, starts_with_chars, str_chars,
};

verus! {

/// One path under a directory: the directory, a separator if one is needed,
/// then the filename.
pub open spec fn join_path(dir: Seq<char>, name: Seq<char>) -> Seq<char> {
    if dir.len() == 0 {
        name
    } else if dir.last() == '/' {
        dir + name
    } else {
        dir + seq!['/'] + name
    }
}

/// Executable path join matching [`join_path`].
pub fn join_path_exec(dir: &str, name: &str) -> (r: String)
    ensures
        r@ == join_path(dir@, name@),
{
    let d = str_chars(dir);
    let n = str_chars(name);
    let mut out = d;
    if out.len() > 0 {
        let last = out[out.len() - 1];
        if last != '/' {
            out.push('/');
        }
    }
    let mut i: usize = 0;
    while i < n.len()
        invariant
            i <= n@.len(),
            out@ == join_path(dir@, n@.subrange(0, i as int)).subrange(
                0,
                join_path(dir@, n@.subrange(0, i as int)).len() as int,
            ),
            out@ == if dir@.len() == 0 {
                n@.subrange(0, i as int)
            } else if dir@.last() == '/' {
                dir@ + n@.subrange(0, i as int)
            } else {
                dir@ + seq!['/'] + n@.subrange(0, i as int)
            },
        decreases n@.len() - i,
    {
        out.push(n[i]);
        i = i + 1;
        proof {
            assert(n@.subrange(0, i as int) =~= n@.subrange(0, i - 1).push(n@[i - 1]));
            if dir@.len() == 0 {
                assert(out@ =~= n@.subrange(0, i as int));
            } else if dir@.last() == '/' {
                assert(out@ =~= dir@ + n@.subrange(0, i as int));
            } else {
                assert(out@ =~= dir@ + seq!['/'] + n@.subrange(0, i as int));
            }
        }
    }
    proof {
        assert(n@.subrange(0, n@.len() as int) =~= n@);
    }
    chars_to_string(&out)
}

/// The filename part of a name: the last non-empty piece between separators,
/// trailing separators ignored, or the empty sequence when there is none.
pub open spec fn file_part(pieces: Seq<Seq<char>>) -> Seq<char>
    decreases pieces.len(),
{
    if pieces.len() == 0 {
        Seq::empty()
    } else if pieces.last().len() > 0 {
        pieces.last()
    } else {
        file_part(pieces.drop_last())
    }
}

/// Whether a logical name already carries a recognized extension: its
/// filename part is not `..` and holds a dot after its first character.
pub open spec fn has_extension(name: Seq<char>) -> bool {
    let file = file_part(split_seq(name, '/'));
    &&& file != seq!['.', '.']
    &&& exists|i: int| 1 <= i < file.len() && file[i] == '.'
}

/// Executable test matching [`has_extension`].
pub fn has_extension_exec(name: &str) -> (r: bool)
    ensures
        r == has_extension(name@),
{
    let chars = str_chars(name);
    let pieces = crate::strutil::split_chars(&chars, '/');
    let ghost sp = split_seq(name@, '/');
    let mut n: usize = pieces.len();
    proof {
        assert(sp.take(n as int) =~= sp);
    }
    while n > 0 && pieces[n - 1].len() == 0
        invariant
            pieces@.map_values(|p: Vec<char>| p@) == sp,
            n <= sp.len(),
            file_part(sp) == file_part(sp.take(n as int)),
        decreases n,
    {
        proof {
            assert(sp.take(n as int).last() == sp[n - 1]);
            assert(sp.take(n as int).drop_last() =~= sp.take(n - 1));
        }
        n = n - 1;
    }
    if n == 0 {
        proof {
            assert(sp.take(0) =~= Seq::<Seq<char>>::empty());
            assert(file_part(sp) =~= Seq::<char>::empty());
        }
        return false;
    }
    let file = &pieces[n - 1];
    proof {
        assert(sp.take(n as int).last() == sp[n - 1]);
        assert(file@ == file_part(sp));
    }
    if file.len() == 2 && file[0] == '.' && file[1] == '.' {
        proof {
            assert(file@ =~= seq!['.', '.']);
        }
        return false;
    }
    proof {
        assert(file@ != seq!['.', '.']);
    }
    let mut i: usize = 1;
    while i < file.len()
        invariant
            1 <= i,
            file@ == file_part(split_seq(name@, '/')),
            file@ != seq!['.', '.'],
            forall|j: int| 1 <= j < i ==> file@[j] != '.',
        decreases file@.len() - i,
    {
        if file[i] == '.' {
            proof {
                let f = file_part(split_seq(name@, '/'));
                assert(1 <= i && (i as int) < f.len() && f[i as int] == '.');
                assert(has_extension(name@));
            }
            return true;
        }
        i = i + 1;
    }
    false
}

/// The ordered candidate filenames for a logical name: the name alone when it
/// already has an extension, otherwise the bare name followed by the name
/// extended by each configured suffix, in order.
pub open spec fn spec_candidates(name: Seq<char>, extensions: Seq<Seq<char>>) -> Seq<Seq<char>> {
    if has_extension(name) {
        seq![name]
    } else {
        seq![name] + extensions.map_values(|e: Seq<char>| name + e)
    }
}

/// Resolve a logical executable name to the literal filenames to probe.
///
/// The extension list is the platform configuration: empty on platforms that
/// run executables under their bare names, the configured suffix list (such
/// as `.exe`, `.bat`) elsewhere. The result is never empty and always starts
/// with the bare name.
pub fn candidate_filenames(filename: &str, extensions: &Vec<String>) -> (r: Vec<String>)
    ensures
        r@.map_values(|s: String| s@) == spec_candidates(
            filename@,
            extensions@.map_values(|e: String| e@),
        ),
        r@.len() >= 1,
        r@[0]@ == filename@,
{
    let mut r: Vec<String> = Vec::new();
    let name_chars = str_chars(filename);
    r.push(chars_to_string(&name_chars));
    if has_extension_exec(filename) {
        proof {
            assert(r@.map_values(|s: String| s@) =~= spec_candidates(
                filename@,
                extensions@.map_values(|e: String| e@),
            ));
        }
        return r;
    }
    let mut i: usize = 0;
    while i < extensions.len()
        invariant
            !has_extension(filename@),
            i <= extensions@.len(),
            r@.len() == i + 1,
            r@[0]@ == filename@,
            forall|j: int| 0 <= j < i ==> #[trigger] r@[j + 1]@ == filename@ + extensions@[j]@,
        decreases extensions@.len() - i,
    {
        let mut cand = str_chars(filename);
        let ext_chars = str_chars(extensions[i].as_str());
        let mut j: usize = 0;
        while j < ext_chars.len()
            invariant
                j <= ext_chars@.len(),
                cand@ == filename@ + ext_chars@.subrange(0, j as int),
            decreases ext_chars@.len() - j,
        {
            cand.push(ext_chars[j]);
            j = j + 1;
            proof {
                assert(cand@ =~= filename@ + ext_chars@.subrange(0, j as int));
            }
        }
        proof {
            assert(ext_chars@.subrange(0, ext_chars@.len() as int) =~= ext_chars@);
        }
        r.push(chars_to_string(&cand));
        i = i + 1;
    }
    proof {
        let m = r@.map_values(|s: String| s@);
        let rhs = spec_candidates(filename@, extensions@.map_values(|e: String| e@));
        assert(m.len() == rhs.len());
        assert forall|j: int| 0 <= j < m.len() implies m[j] == rhs[j] by {
            if j > 0 {
                assert(r@[(j - 1) + 1]@ == filename@ + extensions@[j - 1]@);
            }
        }
        assert(m =~= rhs);
    }
    r
}

/// The first candidate filename at index `f` or later whose path under
/// `dir` lies in `execs`, the set of executable regular files.
pub open spec fn first_in_dir_from(
    dir: Seq<char>,
    files: Seq<Seq<char>>,
    execs: Seq<Seq<char>>,
    f: int,
) -> Option<Seq<char>>
    decreases files.len() - f,
{
    if f < 0 || f >= files.len() {
        None
    } else if execs.contains(join_path(dir, files[f])) {
        Some(join_path(dir, files[f]))
    } else {
        first_in_dir_from(dir, files, execs, f + 1)
    }
}

/// The first matching candidate inside one directory.
pub open spec fn first_in_dir(dir: Seq<char>, files: Seq<Seq<char>>, execs: Seq<Seq<char>>) -> Option<
    Seq<char>,
> {
    first_in_dir_from(dir, files, execs, 0)
}

/// The first match in directory `d` or later, in directory-priority order.
pub open spec fn first_match_dirs_from(
    dirs: Seq<Seq<char>>,
    files: Seq<Seq<char>>,
    execs: Seq<Seq<char>>,
    d: int,
) -> Option<Seq<char>>
    decreases dirs.len() - d,
{
    if d < 0 || d >= dirs.len() {
        None
    } else if first_in_dir(dirs[d], files, execs) is Some {
        first_in_dir(dirs[d], files, execs)
    } else {
        first_match_dirs_from(dirs, files, execs, d + 1)
    }
}

/// The first executable match over the whole directory list.
pub open spec fn spec_first_match(
    dirs: Seq<Seq<char>>,
    files: Seq<Seq<char>>,
    execs: Seq<Seq<char>>,
) -> Option<Seq<char>> {
    first_match_dirs_from(dirs, files, execs, 0)
}

/// Whether some candidate filename under `dir` is in `execs`.
pub open spec fn dir_has_match(
    dir: Seq<char>,
    files: Seq<Seq<char>>,
    execs: Seq<Seq<char>>,
) -> bool {
    exists|f: int| 0 <= f < files.len() && execs.contains(join_path(dir, files[f]))
}

/// A directory's scan finds nothing exactly when no candidate from `f` on
/// matches.
pub proof fn lemma_first_in_dir_none(
    dir: Seq<char>,
    files: Seq<Seq<char>>,
    execs: Seq<Seq<char>>,
    f: int,
)
    requires
        0 <= f <= files.len(),
    ensures
        first_in_dir_from(dir, files, execs, f) is None <==> (forall|f2: int|
            f <= f2 < files.len() ==> !execs.contains(#[trigger] join_path(dir, files[f2]))),
    decreases files.len() - f,
{
    if f < files.len() {
        lemma_first_in_dir_none(dir, files, execs, f + 1);
    }
}

/// Candidates already rejected do not change what a directory's scan finds.
pub proof fn lemma_first_in_dir_skip(
    dir: Seq<char>,
    files: Seq<Seq<char>>,
    execs: Seq<Seq<char>>,
    f: int,
)
    requires
        0 <= f <= files.len(),
        forall|f2: int| 0 <= f2 < f ==> !execs.contains(#[trigger] join_path(dir, files[f2])),
    ensures
        first_in_dir(dir, files, execs) == first_in_dir_from(dir, files, execs, f),
    decreases f,
{
    if f > 0 {
        lemma_first_in_dir_skip(dir, files, execs, f - 1);
        assert(first_in_dir_from(dir, files, execs, f - 1) == first_in_dir_from(
            dir,
            files,
            execs,
            f,
        ));
    }
}

/// What a directory's scan finds when it finds something: the match at the
/// least candidate index, a path of `execs`.
pub proof fn lemma_first_in_dir_some(
    dir: Seq<char>,
    files: Seq<Seq<char>>,
    execs: Seq<Seq<char>>,
)
    requires
        first_in_dir(dir, files, execs) is Some,
    ensures
        ({
            let p = first_in_dir(dir, files, execs)->0;
            exists|f: int|
                {
                    &&& 0 <= f < files.len()
                    &&& p == join_path(dir, files[f])
                    &&& execs.contains(p)
                    &&& (forall|f3: int|
                        0 <= f3 < f ==> !execs.contains(#[trigger] join_path(dir, files[f3])))
                }
        }),
{
    lemma_first_in_dir_some_from(dir, files, execs, 0);
}

proof fn lemma_first_in_dir_some_from(
    dir: Seq<char>,
    files: Seq<Seq<char>>,
    execs: Seq<Seq<char>>,
    f: int,
)
    requires
        0 <= f <= files.len(),
        first_in_dir_from(dir, files, execs, f) is Some,
    ensures
        ({
            let p = first_in_dir_from(dir, files, execs, f)->0;
            exists|f2: int|
                {
                    &&& f <= f2 < files.len()
                    &&& p == join_path(dir, files[f2])
                    &&& execs.contains(p)
                    &&& (forall|f3: int|
                        f <= f3 < f2 ==> !execs.contains(#[trigger] join_path(dir, files[f3])))
                }
        }),
    decreases files.len() - f,
{
    if execs.contains(join_path(dir, files[f])) {
    } else {
        lemma_first_in_dir_some_from(dir, files, execs, f + 1);
        let p = first_in_dir_from(dir, files, execs, f + 1)->0;
        let f2 = choose|f2: int|
            {
                &&& f + 1 <= f2 < files.len()
                &&& p == join_path(dir, files[f2])
                &&& execs.contains(p)
                &&& (forall|f3: int|
                    f + 1 <= f3 < f2 ==> !execs.contains(#[trigger] join_path(dir, files[f3])))
            };
        assert forall|f3: int| f <= f3 < f2 implies !execs.contains(
            #[trigger] join_path(dir, files[f3]),
        ) by {}
    }
}

/// What the search across directories finds, from directory `d` on: nothing
/// exactly when no directory from `d` on has a match, and otherwise the match
/// of the earliest matching directory.
pub proof fn lemma_first_match_dirs_props(
    dirs: Seq<Seq<char>>,
    files: Seq<Seq<char>>,
    execs: Seq<Seq<char>>,
    d: int,
)
    requires
        0 <= d <= dirs.len(),
    ensures
        first_match_dirs_from(dirs, files, execs, d) is None <==> (forall|d2: int|
            d <= d2 < dirs.len() ==> !dir_has_match(#[trigger] dirs[d2], files, execs)),
        first_match_dirs_from(dirs, files, execs, d) matches Some(p) ==> (exists|d2: int|
            {
                &&& d <= d2 < dirs.len()
                &&& dir_has_match(dirs[d2], files, execs)
                &&& (forall|d3: int|
                    d <= d3 < d2 ==> !dir_has_match(#[trigger] dirs[d3], files, execs))
                &&& first_in_dir(dirs[d2], files, execs) == Some(p)
            }),
    decreases dirs.len() - d,
{
    if d == dirs.len() {
    } else {
        lemma_first_in_dir_none(dirs[d], files, execs, 0);
        if first_in_dir(dirs[d], files, execs) is Some {
            assert(dir_has_match(dirs[d], files, execs));
            let p = first_in_dir(dirs[d], files, execs)->0;
            assert(first_match_dirs_from(dirs, files, execs, d) == Some(p));
        } else {
            assert(!dir_has_match(dirs[d], files, execs));
            lemma_first_match_dirs_props(dirs, files, execs, d + 1);
            if first_match_dirs_from(dirs, files, execs, d + 1) is Some {
                let p = first_match_dirs_from(dirs, files, execs, d + 1)->0;
                let d2 = choose|d2: int|
                    {
                        &&& d + 1 <= d2 < dirs.len()
                        &&& dir_has_match(dirs[d2], files, execs)
                        &&& (forall|d3: int|
                            d + 1 <= d3 < d2 ==> !dir_has_match(#[trigger] dirs[d3], files, execs))
                        &&& first_in_dir(dirs[d2], files, execs) == Some(p)
                    };
                assert forall|d3: int| d <= d3 < d2 implies !dir_has_match(
                    #[trigger] dirs[d3],
                    files,
                    execs,
                ) by {}
            }
        }
    }
}

/// The exact search yields the match of lowest directory priority: a result
/// always lies in the earliest directory containing any matching candidate,
/// and there is no result exactly when no directory contains one.
pub proof fn lemma_exact_search_priority(
    dirs: Seq<Seq<char>>,
    files: Seq<Seq<char>>,
    execs: Seq<Seq<char>>,
)
    ensures
        spec_first_match(dirs, files, execs) is None <==> (forall|d: int|
            0 <= d < dirs.len() ==> !dir_has_match(#[trigger] dirs[d], files, execs)),
        spec_first_match(dirs, files, execs) matches Some(p) ==> (exists|d: int|
            {
                &&& 0 <= d < dirs.len()
                &&& dir_has_match(dirs[d], files, execs)
                &&& (forall|d2: int| 0 <= d2 < d ==> !dir_has_match(#[trigger] dirs[d2], files, execs))
                &&& (exists|f: int|
                    0 <= f < files.len() && p == join_path(dirs[d], files[f]) && execs.contains(p))
            }),
{
    lemma_first_match_dirs_props(dirs, files, execs, 0);
    if spec_first_match(dirs, files, execs) is Some {
        let p = spec_first_match(dirs, files, execs)->0;
        let d2 = choose|d2: int|
            {
                &&& 0 <= d2 < dirs.len()
                &&& dir_has_match(dirs[d2], files, execs)
                &&& (forall|d3: int|
                    0 <= d3 < d2 ==> !dir_has_match(#[trigger] dirs[d3], files, execs))
                &&& first_in_dir(dirs[d2], files, execs) == Some(p)
            };
        lemma_first_in_dir_some(dirs[d2], files, execs);
    }
}


/// The state of an in-progress exact executable search: the prioritized
/// directory list, the resolved candidate filenames, and a cursor marking the
/// next candidate to probe.
pub struct ExecutablePathSearch {
    paths: Vec<String>,
    filenames: Vec<String>,
    dir_idx: usize,
    file_idx: usize,
}

impl ExecutablePathSearch {
    /// The directory list, earliest (highest-priority) first.
    pub closed spec fn dirs(self) -> Seq<Seq<char>> {
        self.paths@.map_values(|p: String| p@)
    }

    /// The candidate filenames, in probe order.
    pub closed spec fn files(self) -> Seq<Seq<char>> {
        self.filenames@.map_values(|p: String| p@)
    }

    /// Index of the directory the next probe falls in.
    pub closed spec fn dir_cursor(self) -> int {
        self.dir_idx as int
    }

    /// Index of the candidate filename the next probe tests.
    pub closed spec fn file_cursor(self) -> int {
        self.file_idx as int
    }

    /// The cursor stays inside the candidate grid and there is always at
    /// least one candidate filename.
    pub open spec fn wf(self) -> bool {
        &&& 0 <= self.dir_cursor() <= self.dirs().len()
        &&& self.files().len() >= 1
        &&& 0 <= self.file_cursor() < self.files().len()
    }

    /// The path the next probe will test, if any directory remains.
    pub open spec fn current_candidate(self) -> Option<Seq<char>> {
        if self.dir_cursor() < self.dirs().len() {
            Some(join_path(self.dirs()[self.dir_cursor()], self.files()[self.file_cursor()]))
        } else {
            None
        }
    }

    /// The next path to probe, or `None` when every directory is exhausted.
    /// An empty directory list yields `None` at once: nothing is ever probed.
    pub fn next_probe(&self) -> (r: Option<String>)
        requires
            self.wf(),
        ensures
            r is Some <==> self.current_candidate() is Some,
            r matches Some(p) ==> self.current_candidate() == Some(p@),
    {
        if self.dir_idx < self.paths.len() {
            let p = join_path_exec(self.paths[self.dir_idx].as_str(), self.filenames[self.file_idx].as_str());
            Some(p)
        } else {
            None
        }
    }

    /// Report the probe's outcome and advance the cursor: a hit finishes the
    /// current directory, a miss moves to its next candidate filename (or on
    /// to the next directory once the candidates are spent).
    pub fn record_probe(&mut self, matched: bool)
        requires
            old(self).wf(),
            old(self).current_candidate() is Some,
        ensures
            final(self).wf(),
            final(self).dirs() == old(self).dirs(),
            final(self).files() == old(self).files(),
            matched ==> final(self).dir_cursor() == old(self).dir_cursor() + 1
                && final(self).file_cursor() == 0,
            !matched && old(self).file_cursor() + 1 < old(self).files().len()
                ==> final(self).dir_cursor() == old(self).dir_cursor()
                && final(self).file_cursor() == old(self).file_cursor() + 1,
            !matched && old(self).file_cursor() + 1 == old(self).files().len()
                ==> final(self).dir_cursor() == old(self).dir_cursor() + 1
                && final(self).file_cursor() == 0,
    {
        let n_dirs = self.paths.len();
        let n_files = self.filenames.len();
        if matched {
            self.dir_idx = self.dir_idx + 1;
            self.file_idx = 0;
        } else if self.file_idx < n_files - 1 {
            self.file_idx = self.file_idx + 1;
        } else {
            self.dir_idx = self.dir_idx + 1;
            self.file_idx = 0;
        }
    }
}

/// Begin an exact executable search for `filename` across `paths`, in order.
///
/// The candidate filenames come from [`candidate_filenames`] with the given
/// platform extension list; the returned search starts at the first candidate
/// of the first directory and performs no probing of its own.
pub fn search_for_executable(paths: Vec<String>, filename: &str, extensions: &Vec<String>) -> (r:
    ExecutablePathSearch)
    ensures
        r.wf(),
        r.dirs() == paths@.map_values(|p: String| p@),
        r.files() == spec_candidates(filename@, extensions@.map_values(|e: String| e@)),
        r.dir_cursor() == 0,
        r.file_cursor() == 0,
{
    let filenames = candidate_filenames(filename, extensions);
    ExecutablePathSearch { paths, filenames, dir_idx: 0, file_idx: 0 }
}

/// Membership of a string among the views of a string vector.
pub fn contains_string(v: &Vec<String>, s: &String) -> (r: bool)
    ensures
        r == v@.map_values(|x: String| x@).contains(s@),
{
    let mut i: usize = 0;
    while i < v.len()
        invariant
            i <= v@.len(),
            forall|j: int| 0 <= j < i ==> v@[j]@ != s@,
        decreases v@.len() - i,
    {
        if v[i].eq(s) {
            proof {
                assert(v@.map_values(|x: String| x@)[i as int] == s@);
            }
            return true;
        }
        i = i + 1;
    }
    proof {
        let m = v@.map_values(|x: String| x@);
        if m.contains(s@) {
            let j = choose|j: int| 0 <= j < m.len() && m[j] == s@;
            assert(v@[j]@ == s@);
        }
    }
    false
}

/// Run an exact executable search to completion against a directory snapshot:
/// `executables` lists every path that is an executable regular file. The
/// result is the first match in directory-priority order, and an empty
/// directory list returns `None` without consulting the snapshot.
#[verifier::loop_isolation(false)]
pub fn search_exact_in(
    paths: Vec<String>,
    filename: &str,
    extensions: &Vec<String>,
    executables: &Vec<String>,
) -> (r: Option<String>)
    ensures
        ({
            let dirs = paths@.map_values(|p: String| p@);
            let files = spec_candidates(filename@, extensions@.map_values(|e: String| e@));
            let execs = executables@.map_values(|x: String| x@);
            &&& (r matches Some(p) ==> spec_first_match(dirs, files, execs) == Some(p@))
            &&& (r is None ==> spec_first_match(dirs, files, execs) is None)
            &&& (paths@.len() == 0 ==> r is None)
        }),
{
    let ghost dirs = paths@.map_values(|p: String| p@);
    let ghost files = spec_candidates(filename@, extensions@.map_values(|e: String| e@));
    let ghost execs = executables@.map_values(|x: String| x@);
    let mut search = search_for_executable(paths, filename, extensions);
    loop
        invariant
            search.wf(),
            search.dirs() == dirs,
            search.files() == files,
            first_match_dirs_from(dirs, files, execs, search.dir_cursor()) == spec_first_match(
                dirs,
                files,
                execs,
            ),
            search.dir_cursor() < dirs.len() ==> (forall|f2: int|
                0 <= f2 < search.file_cursor() ==> !execs.contains(
                    #[trigger] join_path(dirs[search.dir_cursor()], files[f2]),
                )),
        decreases
                search.dirs().len() - search.dir_cursor(),
                search.files().len() - search.file_cursor(),
    {
        let probe = search.next_probe();
        match probe {
            None => {
                return None;
            },
            Some(p) => {
                let hit = contains_string(executables, &p);
                let ghost d = search.dir_cursor();
                let ghost f = search.file_cursor();
                proof {
                    assert(search.current_candidate() == Some(p@));
                    assert(0 <= d && d < dirs.len());
                    assert(0 <= f && f < files.len());
                    assert(p@ == join_path(dirs[d], files[f]));
                }
                if hit {
                    proof {
                        assert(execs.contains(join_path(dirs[d], files[f])));
                        lemma_first_in_dir_skip(dirs[d], files, execs, f);
                        assert(first_in_dir_from(dirs[d], files, execs, f) == Some(
                            join_path(dirs[d], files[f]),
                        ));
                        assert(first_in_dir(dirs[d], files, execs) == Some(p@));
                        assert(first_match_dirs_from(dirs, files, execs, d) == Some(p@));
                    }
                    return Some(p);
                }
                proof {
                    assert(!execs.contains(join_path(dirs[d], files[f])));
                    assert(forall|f2: int|
                        0 <= f2 < f + 1 ==> !execs.contains(
                            #[trigger] join_path(dirs[d], files[f2]),
                        ));
                    if f + 1 == files.len() {
                        lemma_first_in_dir_none(dirs[d], files, execs, 0);
                        assert(first_in_dir(dirs[d], files, execs) is None);
                        assert(first_match_dirs_from(dirs, files, execs, d)
                            == first_match_dirs_from(dirs, files, execs, d + 1));
                    }
                }
                search.record_probe(false);
            },
        }
    }
}

/// Case folding applied to a filename when the search is case-insensitive.
pub open spec fn fold_name(case_insensitive: bool, s: Seq<char>) -> Seq<char> {
    if case_insensitive {
        lower_seq(s)
    } else {
        s
    }
}

/// Whether one directory entry belongs in a prefix search's results: it must
/// be an executable regular file whose (possibly folded) name starts with the
/// stored prefix.
pub open spec fn entry_matches(
    prefix: Seq<char>,
    case_insensitive: bool,
    name: Seq<char>,
    is_exec_file: bool,
) -> bool {
    is_exec_file && prefix.is_prefix_of(fold_name(case_insensitive, name))
}

/// The matches one directory listing contributes, in listing order, as paths
/// under `dir`.
pub open spec fn dir_prefix_matches(
    dir: Seq<char>,
    entries: Seq<(Seq<char>, bool)>,
    prefix: Seq<char>,
    case_insensitive: bool,
) -> Seq<Seq<char>>
    decreases entries.len(),
{
    if entries.len() == 0 {
        Seq::empty()
    } else {
        let last = entries.last();
        let tail: Seq<Seq<char>> = if entry_matches(prefix, case_insensitive, last.0, last.1) {
            seq![join_path(dir, last.0)]
        } else {
            Seq::empty()
        };
        dir_prefix_matches(dir, entries.drop_last(), prefix, case_insensitive) + tail
    }
}

/// All matches from directory `d` on, each directory's listing fully drained
/// before the next directory begins.
pub open spec fn prefix_results_from(
    dirs: Seq<Seq<char>>,
    listings: Seq<Seq<(Seq<char>, bool)>>,
    prefix: Seq<char>,
    case_insensitive: bool,
    d: int,
) -> Seq<Seq<char>>
    decreases dirs.len() - d,
{
    if d < 0 || d >= dirs.len() || d >= listings.len() {
        Seq::empty()
    } else {
        dir_prefix_matches(dirs[d], listings[d], prefix, case_insensitive)
            + prefix_results_from(dirs, listings, prefix, case_insensitive, d + 1)
    }
}

/// All matches of a prefix search over the whole directory list.
pub open spec fn spec_prefix_results(
    dirs: Seq<Seq<char>>,
    listings: Seq<Seq<(Seq<char>, bool)>>,
    prefix: Seq<char>,
    case_insensitive: bool,
) -> Seq<Seq<char>> {
    prefix_results_from(dirs, listings, prefix, case_insensitive, 0)
}

/// Every path a directory listing contributes comes from a listed entry that
/// is an executable regular file whose folded name starts with the prefix.
pub proof fn lemma_dir_prefix_matches_sound(
    dir: Seq<char>,
    entries: Seq<(Seq<char>, bool)>,
    prefix: Seq<char>,
    case_insensitive: bool,
)
    ensures
        forall|k: int|
            0 <= k < dir_prefix_matches(dir, entries, prefix, case_insensitive).len()
                ==> (exists|i: int|
                {
                    &&& 0 <= i < entries.len()
                    &&& entry_matches(prefix, case_insensitive, entries[i].0, entries[i].1)
                    &&& #[trigger] dir_prefix_matches(dir, entries, prefix, case_insensitive)[k]
                        == join_path(dir, entries[i].0)
                }),
    decreases entries.len(),
{
    if entries.len() == 0 {
        assert(dir_prefix_matches(dir, entries, prefix, case_insensitive).len() == 0);
    } else {
        lemma_dir_prefix_matches_sound(dir, entries.drop_last(), prefix, case_insensitive);
        let whole = dir_prefix_matches(dir, entries, prefix, case_insensitive);
        let front = dir_prefix_matches(dir, entries.drop_last(), prefix, case_insensitive);
        assert forall|k: int| 0 <= k < whole.len() implies (exists|i: int|
            {
                &&& 0 <= i < entries.len()
                &&& entry_matches(prefix, case_insensitive, entries[i].0, entries[i].1)
                &&& #[trigger] whole[k] == join_path(dir, entries[i].0)
            }) by {
            if k < front.len() {
                assert(whole[k] == front[k]);
                let i = choose|i: int|
                    {
                        &&& 0 <= i < entries.drop_last().len()
                        &&& entry_matches(
                            prefix,
                            case_insensitive,
                            entries.drop_last()[i].0,
                            entries.drop_last()[i].1,
                        )
                        &&& #[trigger] front[k] == join_path(dir, entries.drop_last()[i].0)
                    };
                assert(entries.drop_last()[i] == entries[i]);
                assert(whole[k] == join_path(dir, entries[i].0));
            } else {
                let i = entries.len() - 1;
                assert(whole[k] == join_path(dir, entries[i].0));
            }
        }
    }
}

/// Position `k` of the prefix search's results from directory `d` on has a
/// witness: a listed entry that is an executable regular file whose folded
/// name starts with the prefix, in some directory of priority `d` or later.
pub open spec fn prefix_result_witnessed(
    dirs: Seq<Seq<char>>,
    listings: Seq<Seq<(Seq<char>, bool)>>,
    prefix: Seq<char>,
    case_insensitive: bool,
    d: int,
    k: int,
) -> bool {
    exists|d2: int, i: int|
        #![trigger listings[d2][i]]
        {
            &&& d <= d2 < dirs.len()
            &&& 0 <= d2 < listings.len()
            &&& 0 <= i < listings[d2].len()
            &&& entry_matches(prefix, case_insensitive, listings[d2][i].0, listings[d2][i].1)
            &&& prefix_results_from(dirs, listings, prefix, case_insensitive, d)[k] == join_path(
                dirs[d2],
                listings[d2][i].0,
            )
        }
}

/// Every result of a whole prefix search comes from some directory's listing,
/// is an executable regular file there, and its folded filename starts with
/// the prefix.
pub proof fn lemma_prefix_results_sound(
    dirs: Seq<Seq<char>>,
    listings: Seq<Seq<(Seq<char>, bool)>>,
    prefix: Seq<char>,
    case_insensitive: bool,
    d: int,
)
    requires
        0 <= d,
    ensures
        forall|k: int|
            0 <= k < prefix_results_from(dirs, listings, prefix, case_insensitive, d).len()
                ==> #[trigger] prefix_result_witnessed(dirs, listings, prefix, case_insensitive, d, k),
    decreases dirs.len() - d,
{
    let whole = prefix_results_from(dirs, listings, prefix, case_insensitive, d);
    if d >= dirs.len() || d >= listings.len() {
        assert(whole.len() == 0);
    } else {
        lemma_dir_prefix_matches_sound(dirs[d], listings[d], prefix, case_insensitive);
        lemma_prefix_results_sound(dirs, listings, prefix, case_insensitive, d + 1);
        let own = dir_prefix_matches(dirs[d], listings[d], prefix, case_insensitive);
        let rest = prefix_results_from(dirs, listings, prefix, case_insensitive, d + 1);
        assert(whole == own + rest);
        assert forall|k: int| 0 <= k < whole.len() implies #[trigger] prefix_result_witnessed(
            dirs,
            listings,
            prefix,
            case_insensitive,
            d,
            k,
        ) by {
            if k < own.len() {
                assert(whole[k] == own[k]);
                let i = choose|i: int|
                    {
                        &&& 0 <= i < listings[d].len()
                        &&& entry_matches(prefix, case_insensitive, listings[d][i].0, listings[d][i].1)
                        &&& #[trigger] own[k] == join_path(dirs[d], listings[d][i].0)
                    };
                assert(whole[k] == join_path(dirs[d], listings[d][i].0));
            } else {
                let k2 = k - own.len();
                assert(whole[k] == rest[k2]);
                assert(prefix_result_witnessed(dirs, listings, prefix, case_insensitive, d + 1, k2));
                let (d2, i) = choose|d2: int, i: int|
                    #![trigger listings[d2][i]]
                    {
                        &&& d + 1 <= d2 < dirs.len()
                        &&& 0 <= d2 < listings.len()
                        &&& 0 <= i < listings[d2].len()
                        &&& entry_matches(
                            prefix,
                            case_insensitive,
                            listings[d2][i].0,
                            listings[d2][i].1,
                        )
                        &&& rest[k2] == join_path(dirs[d2], listings[d2][i].0)
                    };
                assert(whole[k] == join_path(dirs[d2], listings[d2][i].0));
            }
        }
    }
}

/// The state of an in-progress prefix search: the prioritized directory list,
/// a cursor over it, the (possibly folded) filename prefix, and the buffered
/// matches of the directory whose listing was read last.
pub struct ExecutablePathPrefixSearch {
    paths: Vec<String>,
    dir_idx: usize,
    queued_items: VecDeque<String>,
    filename_prefix: String,
    case_insensitive: bool,
}

impl ExecutablePathPrefixSearch {
    /// The directory list, earliest (highest-priority) first.
    pub closed spec fn dirs(self) -> Seq<Seq<char>> {
        self.paths@.map_values(|p: String| p@)
    }

    /// Index of the next directory whose listing has not been requested.
    pub closed spec fn dir_cursor(self) -> int {
        self.dir_idx as int
    }

    /// The buffered matches not yet handed out, in discovery order.
    pub closed spec fn queue(self) -> Seq<Seq<char>> {
        self.queued_items@.map_values(|p: String| p@)
    }

    /// The stored prefix, already folded when the search is case-insensitive.
    pub closed spec fn prefix(self) -> Seq<char> {
        self.filename_prefix@
    }

    /// Whether filenames are folded before the prefix test.
    pub closed spec fn ci(self) -> bool {
        self.case_insensitive
    }

    /// The cursor never runs past the end of the directory list.
    pub open spec fn wf(self) -> bool {
        0 <= self.dir_cursor() <= self.dirs().len()
    }

    /// The next directory to list, or `None` when all are spent. An empty
    /// directory list yields `None` at once: no listing is ever requested.
    pub fn next_directory(&mut self) -> (r: Option<String>)
        requires
            old(self).wf(),
        ensures
            final(self).wf(),
            final(self).dirs() == old(self).dirs(),
            final(self).queue() == old(self).queue(),
            final(self).prefix() == old(self).prefix(),
            final(self).ci() == old(self).ci(),
            old(self).dir_cursor() == old(self).dirs().len() ==> r is None
                && final(self).dir_cursor() == old(self).dir_cursor(),
            old(self).dir_cursor() < old(self).dirs().len() ==> {
                &&& r is Some
                &&& r->0@ == old(self).dirs()[old(self).dir_cursor()]
                &&& final(self).dir_cursor() == old(self).dir_cursor() + 1
            },
    {
        if self.dir_idx < self.paths.len() {
            let dir = self.paths[self.dir_idx].clone();
            self.dir_idx = self.dir_idx + 1;
            Some(dir)
        } else {
            None
        }
    }

    /// Offer one decoded entry of the directory listed last: `name` is its
    /// filename, `path` its full path, and `is_exec_file` whether the probe
    /// found an executable regular file. A matching entry joins the buffer;
    /// anything else leaves the search unchanged.
    pub fn offer_entry(&mut self, name: &str, path: &str, is_exec_file: bool)
        ensures
            final(self).dirs() == old(self).dirs(),
            final(self).dir_cursor() == old(self).dir_cursor(),
            final(self).prefix() == old(self).prefix(),
            final(self).ci() == old(self).ci(),
            final(self).wf() == old(self).wf(),
            final(self).queue() == if entry_matches(
                old(self).prefix(),
                old(self).ci(),
                name@,
                is_exec_file,
            ) {
                old(self).queue().push(path@)
            } else {
                old(self).queue()
            },
    {
        if !is_exec_file {
            proof {
                assert(final(self).queue() =~= old(self).queue());
            }
            return;
        }
        let name_chars = str_chars(name);
        let folded = if self.case_insensitive {
            lower_vec(&name_chars)
        } else {
            name_chars
        };
        let prefix_chars = str_chars(self.filename_prefix.as_str());
        if starts_with_chars(&folded, &prefix_chars) {
            self.queued_items.push_back(path.to_owned());
            proof {
                assert(final(self).queue() =~= old(self).queue().push(path@));
            }
        } else {
            proof {
                assert(final(self).queue() =~= old(self).queue());
            }
        }
    }

    /// Hand out the earliest buffered match, if any.
    pub fn pop_queued(&mut self) -> (r: Option<String>)
        ensures
            final(self).dirs() == old(self).dirs(),
            final(self).dir_cursor() == old(self).dir_cursor(),
            final(self).prefix() == old(self).prefix(),
            final(self).ci() == old(self).ci(),
            final(self).wf() == old(self).wf(),
            old(self).queue().len() == 0 ==> r is None && final(self).queue() == old(self).queue(),
            old(self).queue().len() > 0 ==> {
                &&& r is Some
                &&& r->0@ == old(self).queue()[0]
                &&& final(self).queue() == old(self).queue().drop_first()
            },
    {
        let r = self.queued_items.pop_front();
        proof {
            if old(self).queue().len() > 0 {
                assert(final(self).queue() =~= old(self).queue().drop_first());
            }
        }
        r
    }
}

/// Begin a prefix executable search across `paths`, in order. The prefix is
/// folded up front when the search is case-insensitive, so every later
/// comparison folds only the filename under test.
pub fn search_for_executable_with_prefix(
    paths: Vec<String>,
    filename_prefix: &str,
    case_insensitive: bool,
) -> (r: ExecutablePathPrefixSearch)
    ensures
        r.wf(),
        r.dirs() == paths@.map_values(|p: String| p@),
        r.dir_cursor() == 0,
        r.queue() == Seq::<Seq<char>>::empty(),
        r.prefix() == fold_name(case_insensitive, filename_prefix@),
        r.ci() == case_insensitive,
{
    let prefix_chars = str_chars(filename_prefix);
    let stored = if case_insensitive {
        chars_to_string(&lower_vec(&prefix_chars))
    } else {
        chars_to_string(&prefix_chars)
    };
    let r = ExecutablePathPrefixSearch {
        paths,
        dir_idx: 0,
        queued_items: VecDeque::new(),
        filename_prefix: stored,
        case_insensitive,
    };
    proof {
        assert(r.queue() =~= Seq::<Seq<char>>::empty());
    }
    r
}

/// A decoded directory entry as the prefix search's driver sees it: the
/// entry's filename and whether the filesystem probe found an executable
/// regular file there.
pub struct ListedEntry {
    pub name: String,
    pub is_exec_file: bool,
}

/// Run a prefix search to completion against a directory snapshot:
/// `listings[d]` holds the decoded entries of `paths[d]`, in listing order.
/// The result is every matching path, grouped by directory priority, and an
/// empty directory list yields an empty result without consulting any
/// listing.
#[verifier::loop_isolation(false)]
pub fn search_prefix_in(
    paths: Vec<String>,
    filename_prefix: &str,
    case_insensitive: bool,
    listings: &Vec<Vec<ListedEntry>>,
) -> (r: Vec<String>)
    requires
        listings@.len() == paths@.len(),
    ensures
        r@.map_values(|s: String| s@) == spec_prefix_results(
            paths@.map_values(|p: String| p@),
            listings@.map_values(
                |l: Vec<ListedEntry>| l@.map_values(|e: ListedEntry| (e.name@, e.is_exec_file)),
            ),
            fold_name(case_insensitive, filename_prefix@),
            case_insensitive,
        ),
        paths@.len() == 0 ==> r@.len() == 0,
{
    let ghost dirs = paths@.map_values(|p: String| p@);
    let ghost lst = listings@.map_values(
        |l: Vec<ListedEntry>| l@.map_values(|e: ListedEntry| (e.name@, e.is_exec_file)),
    );
    let ghost prefix = fold_name(case_insensitive, filename_prefix@);
    let mut search = search_for_executable_with_prefix(paths, filename_prefix, case_insensitive);
    let mut results: Vec<String> = Vec::new();
    let mut di: usize = 0;
    proof {
        assert(results@.map_values(|s: String| s@) =~= Seq::<Seq<char>>::empty());
    }
    loop
        invariant
            search.wf(),
            search.dirs() == dirs,
            search.prefix() == prefix,
            search.ci() == case_insensitive,
            search.queue() == Seq::<Seq<char>>::empty(),
            di as int == search.dir_cursor(),
            results@.map_values(|s: String| s@) + prefix_results_from(
                dirs,
                lst,
                prefix,
                case_insensitive,
                search.dir_cursor(),
            ) == spec_prefix_results(dirs, lst, prefix, case_insensitive),
        decreases dirs.len() - search.dir_cursor(),
    {
        let ghost d = search.dir_cursor();
        let dir = match search.next_directory() {
            None => {
                proof {
                    assert(prefix_results_from(dirs, lst, prefix, case_insensitive, d)
                        =~= Seq::<Seq<char>>::empty());
                    assert(results@.map_values(|s: String| s@) =~= spec_prefix_results(
                        dirs,
                        lst,
                        prefix,
                        case_insensitive,
                    ));
                }
                return results;
            },
            Some(dir) => dir,
        };
        let entries = &listings[di];
        di = di + 1;
        let ghost entries_v = lst[d];
        let mut i: usize = 0;
        while i < entries.len()
            invariant
                search.wf(),
                search.dirs() == dirs,
                search.prefix() == prefix,
                search.ci() == case_insensitive,
                search.dir_cursor() == d + 1,
                0 <= d < dirs.len(),
                d < lst.len(),
                dir@ == dirs[d],
                entries_v == lst[d],
                entries@.map_values(|e: ListedEntry| (e.name@, e.is_exec_file)) == entries_v,
                i <= entries_v.len(),
                search.queue() == dir_prefix_matches(
                    dirs[d],
                    entries_v.subrange(0, i as int),
                    prefix,
                    case_insensitive,
                ),
            decreases entries_v.len() - i,
        {
            let path = join_path_exec(dir.as_str(), entries[i].name.as_str());
            search.offer_entry(entries[i].name.as_str(), path.as_str(), entries[i].is_exec_file);
            proof {
                let taken = entries_v.subrange(0, i + 1);
                assert(taken.drop_last() =~= entries_v.subrange(0, i as int));
                assert(taken.last() == entries_v[i as int]);
            }
            i = i + 1;
        }
        proof {
            assert(entries_v.subrange(0, entries_v.len() as int) =~= entries_v);
            assert(prefix_results_from(dirs, lst, prefix, case_insensitive, d)
                == dir_prefix_matches(dirs[d], entries_v, prefix, case_insensitive)
                + prefix_results_from(dirs, lst, prefix, case_insensitive, d + 1));
        }
        let ghost before = results@.map_values(|s: String| s@);
        loop
            invariant
                search.wf(),
                search.dirs() == dirs,
                search.prefix() == prefix,
                search.ci() == case_insensitive,
                search.dir_cursor() == d + 1,
                results@.map_values(|s: String| s@) + search.queue() == before
                    + dir_prefix_matches(dirs[d], entries_v, prefix, case_insensitive),
            decreases search.queue().len(),
        {
            match search.pop_queued() {
                None => {
                    break;
                },
                Some(item) => {
                    results.push(item);
                    proof {
                        assert(results@.map_values(|s: String| s@) + search.queue() =~= before
                            + dir_prefix_matches(dirs[d], entries_v, prefix, case_insensitive));
                    }
                },
            }
        }
    }
}

} // verus!

//! The bounded, glob-filtered directory walk.
//!
//! The walk itself — reading the tree, honoring ignore files, hiding hidden
//! entries — belongs to the driver that owns the filesystem. This module is
//! the walk's whole decision pipeline: pattern normalization and rewriting,
//! the hard skip list, relative-path shaping, glob matching, type filtering
//! and the result cap. It sees each candidate entry as a path and a type tag,
//! and decides, one entry at a time, what joins the capped result list.

use vstd::prelude::*;
use crate::globmatch::{compile_glob_set, glob_compiles, glob_error_message, glob_match,
    glob_set_is_match, glob_set_pattern};
use crate::strutil::{chars_to_string, contains_chars, contains_seq, split_chars, split_seq,
    starts_with_chars, str_chars};

verus! {

/// The classification of one filesystem entry, symlinks never followed.
#[derive(Clone, Copy, PartialEq, Eq, Structural, Debug)]
pub enum FileKind {
    File,
    Dir,
    Symlink,
}

/// Classify an entry from its metadata, exactly as the walk reports it: a
/// symlink wins over everything, then a directory, and anything else is a
/// regular file.
pub fn classify_file_type(is_symlink: bool, is_dir: bool) -> (r: FileKind)
    ensures
        r == (if is_symlink {
            FileKind::Symlink
        } else if is_dir {
            FileKind::Dir
        } else {
            FileKind::File
        }),
{
    if is_symlink {
        FileKind::Symlink
    } else if is_dir {
        FileKind::Dir
    } else {
        FileKind::File
    }
}

/// Whether a character counts as blank when a pattern is trimmed: the
/// characters with Unicode's White_Space property, exactly those that
/// `str::trim` removes.
pub open spec fn is_blank(c: char) -> bool {
    let u = c as u32;
    ||| (0x9 <= u && u <= 0xD)
    ||| u == 0x20
    ||| u == 0x85
    ||| u == 0xA0
    ||| u == 0x1680
    ||| (0x2000 <= u && u <= 0x200A)
    ||| u == 0x2028
    ||| u == 0x2029
    ||| u == 0x202F
    ||| u == 0x205F
    ||| u == 0x3000
}

/// A sequence with leading and trailing blanks removed.
pub open spec fn trim_blanks(s: Seq<char>) -> Seq<char>
    decreases s.len(),
{
    if s.len() > 0 && is_blank(s[0]) {
        trim_blanks(s.drop_first())
    } else if s.len() > 0 && is_blank(s.last()) {
        trim_blanks(s.drop_last())
    } else {
        s
    }
}

/// The pattern a walk actually uses: trimmed, and `*` when nothing is left.
pub open spec fn spec_normalize_pattern(s: Seq<char>) -> Seq<char> {
    if trim_blanks(s).len() == 0 {
        seq!['*']
    } else {
        trim_blanks(s)
    }
}

/// Executable pattern normalization matching [`spec_normalize_pattern`].
pub fn normalize_pattern(pattern: &str) -> (r: String)
    ensures
        r@ == spec_normalize_pattern(pattern@),
{
    let chars = str_chars(pattern);
    let mut a: usize = 0;
    let mut b: usize = chars.len();
    proof {
        assert(chars@.subrange(0, chars@.len() as int) =~= chars@);
    }
    while a < b && is_blank_exec(chars[a])
        invariant
            a <= b <= chars@.len(),
            trim_blanks(chars@) == trim_blanks(chars@.subrange(a as int, b as int)),
        decreases b - a,
    {
        proof {
            let cur = chars@.subrange(a as int, b as int);
            assert(cur.drop_first() =~= chars@.subrange(a + 1, b as int));
        }
        a = a + 1;
    }
    while a < b && is_blank_exec(chars[b - 1])
        invariant
            a <= b <= chars@.len(),
            trim_blanks(chars@) == trim_blanks(chars@.subrange(a as int, b as int)),
            a < b ==> !is_blank(chars@[a as int]),
        decreases b - a,
    {
        proof {
            let cur = chars@.subrange(a as int, b as int);
            assert(cur.drop_last() =~= chars@.subrange(a as int, b - 1));
            assert(cur[0] == chars@[a as int]);
        }
        b = b - 1;
    }
    proof {
        let cur = chars@.subrange(a as int, b as int);
        assert(trim_blanks(cur) == cur);
    }
    if a == b {
        let star: Vec<char> = vec!['*'];
        proof {
            assert(star@ =~= seq!['*']);
            assert(chars@.subrange(a as int, b as int) =~= Seq::<char>::empty());
        }
        chars_to_string(&star)
    } else {
        let mut out: Vec<char> = Vec::new();
        let mut i: usize = a;
        while i < b
            invariant
                a <= i <= b <= chars@.len(),
                out@ == chars@.subrange(a as int, i as int),
            decreases b - i,
        {
            out.push(chars[i]);
            i = i + 1;
            proof {
                assert(out@ =~= chars@.subrange(a as int, i as int));
            }
        }
        chars_to_string(&out)
    }
}

/// Executable blank test matching [`is_blank`].
pub fn is_blank_exec(c: char) -> (r: bool)
    ensures
        r == is_blank(c),
{
    let u = c as u32;
    (0x9 <= u && u <= 0xD) || u == 0x20 || u == 0x85 || u == 0xA0 || u == 0x1680 || (0x2000 <= u
        && u <= 0x200A) || u == 0x2028 || u == 0x2029 || u == 0x202F || u == 0x205F || u == 0x3000
}

/// Separator normalization: on platforms whose paths use backslashes, every
/// backslash becomes the canonical separator; elsewhere the path is untouched.
pub open spec fn normalize_seps(fold_backslashes: bool, s: Seq<char>) -> Seq<char> {
    if fold_backslashes {
        s.map_values(|c: char| if c == '\\' { '/' } else { c })
    } else {
        s
    }
}

/// Executable separator normalization matching [`normalize_seps`].
pub fn normalize_seps_exec(s: &Vec<char>, fold_backslashes: bool) -> (r: Vec<char>)
    ensures
        r@ == normalize_seps(fold_backslashes, s@),
{
    if !fold_backslashes {
        return s.clone();
    }
    let mut r: Vec<char> = Vec::new();
    let mut i: usize = 0;
    while i < s.len()
        invariant
            i <= s@.len(),
            r@ == normalize_seps(true, s@.subrange(0, i as int)),
        decreases s@.len() - i,
    {
        let c = s[i];
        if c == '\\' {
            r.push('/');
        } else {
            r.push(c);
        }
        i = i + 1;
        proof {
            assert(r@ =~= normalize_seps(true, s@.subrange(0, i as int)));
        }
    }
    proof {
        assert(s@.subrange(0, s@.len() as int) =~= s@);
    }
    r
}

/// The pattern handed to the glob compiler: separators normalized, and a
/// pattern that names no directory level — no separator and no leading
/// recursive wildcard — is rewritten to match at any depth under the root.
pub open spec fn spec_build_glob_pattern(glob: Seq<char>, fold_backslashes: bool) -> Seq<char> {
    let g = normalize_seps(fold_backslashes, glob);
    if g.contains('/') || seq!['*', '*'].is_prefix_of(g) {
        g
    } else {
        seq!['*', '*', '/'] + g
    }
}

/// Whether a character vector holds a given character.
pub fn contains_char(s: &Vec<char>, c: char) -> (r: bool)
    ensures
        r == s@.contains(c),
{
    let mut i: usize = 0;
    while i < s.len()
        invariant
            i <= s@.len(),
            forall|j: int| 0 <= j < i ==> s@[j] != c,
        decreases s@.len() - i,
    {
        if s[i] == c {
            return true;
        }
        i = i + 1;
    }
    false
}

/// Executable pattern rewriting matching [`spec_build_glob_pattern`].
pub fn build_glob_pattern(glob: &str, fold_backslashes: bool) -> (r: String)
    ensures
        r@ == spec_build_glob_pattern(glob@, fold_backslashes),
{
    let chars = str_chars(glob);
    let g = normalize_seps_exec(&chars, fold_backslashes);
    let starstar: Vec<char> = vec!['*', '*'];
    proof {
        assert(starstar@ =~= seq!['*', '*']);
    }
    if contains_char(&g, '/') || starts_with_chars(&g, &starstar) {
        chars_to_string(&g)
    } else {
        let mut out: Vec<char> = vec!['*', '*', '/'];
        proof {
            assert(out@ =~= seq!['*', '*', '/']);
        }
        let mut i: usize = 0;
        while i < g.len()
            invariant
                i <= g@.len(),
                out@ == seq!['*', '*', '/'] + g@.subrange(0, i as int),
            decreases g@.len() - i,
        {
            out.push(g[i]);
            i = i + 1;
            proof {
                assert(out@ =~= seq!['*', '*', '/'] + g@.subrange(0, i as int));
            }
        }
        proof {
            assert(g@.subrange(0, g@.len() as int) =~= g@);
        }
        chars_to_string(&out)
    }
}

/// Whether some component of a path — the pieces between separators — equals
/// a given name.
pub open spec fn spec_contains_component(path: Seq<char>, name: Seq<char>) -> bool {
    split_seq(path, '/').contains(name)
}

/// Whether two character vectors hold the same characters.
pub fn chars_equal(a: &Vec<char>, b: &Vec<char>) -> (r: bool)
    ensures
        r == (a@ == b@),
{
    if a.len() != b.len() {
        return false;
    }
    if starts_with_chars(a, b) {
        proof {
            assert(a@.subrange(0, b@.len() as int) =~= a@);
        }
        true
    } else {
        proof {
            if a@ == b@ {
                assert(b@.is_prefix_of(a@));
            }
        }
        false
    }
}

/// Executable component test matching [`spec_contains_component`].
pub fn contains_component(path: &Vec<char>, name: &Vec<char>) -> (r: bool)
    ensures
        r == spec_contains_component(path@, name@),
{
    let pieces = split_chars(path, '/');
    let ghost sp = split_seq(path@, '/');
    let mut i: usize = 0;
    while i < pieces.len()
        invariant
            sp == split_seq(path@, '/'),
            pieces@.map_values(|p: Vec<char>| p@) == sp,
            i <= sp.len(),
            forall|j: int| 0 <= j < i ==> sp[j] != name@,
        decreases sp.len() - i,
    {
        if chars_equal(&pieces[i], name) {
            proof {
                assert(sp[i as int] == name@);
            }
            return true;
        }
        i = i + 1;
    }
    proof {
        if sp.contains(name@) {
            let j = choose|j: int| 0 <= j < sp.len() && sp[j] == name@;
        }
    }
    false
}

/// Whether any component of a (relative) path is hidden: non-empty and
/// starting with a dot.
pub open spec fn has_hidden_component(path: Seq<char>) -> bool {
    exists|i: int|
        {
            &&& 0 <= i < split_seq(path, '/').len()
            &&& #[trigger] split_seq(path, '/')[i].len() > 0
            &&& split_seq(path, '/')[i][0] == '.'
        }
}

/// Executable hidden-component test matching [`has_hidden_component`].
pub fn has_hidden_component_exec(path: &Vec<char>) -> (r: bool)
    ensures
        r == has_hidden_component(path@),
{
    let pieces = split_chars(path, '/');
    let ghost sp = split_seq(path@, '/');
    let mut i: usize = 0;
    while i < pieces.len()
        invariant
            sp == split_seq(path@, '/'),
            pieces@.map_values(|p: Vec<char>| p@) == sp,
            i <= sp.len(),
            forall|j: int| 0 <= j < i ==> !(#[trigger] sp[j].len() > 0 && sp[j][0] == '.'),
        decreases sp.len() - i,
    {
        let piece = &pieces[i];
        if piece.len() > 0 && piece[0] == '.' {
            proof {
                assert(sp[i as int].len() > 0 && sp[i as int][0] == '.');
            }
            return true;
        }
        i = i + 1;
    }
    false
}

/// The hard skip list: `.git` is always out; `node_modules` is out unless the
/// user's pattern textually mentions it, which disables that exclusion for
/// the whole walk.
pub open spec fn spec_should_skip(path: Seq<char>, mentions_node_modules: bool) -> bool {
    ||| spec_contains_component(path, seq!['.', 'g', 'i', 't'])
    ||| (!mentions_node_modules && spec_contains_component(
        path,
        seq!['n', 'o', 'd', 'e', '_', 'm', 'o', 'd', 'u', 'l', 'e', 's'],
    ))
}

/// Executable skip test matching [`spec_should_skip`].
pub fn should_skip_path(path: &Vec<char>, mentions_node_modules: bool) -> (r: bool)
    ensures
        r == spec_should_skip(path@, mentions_node_modules),
{
    let git: Vec<char> = vec!['.', 'g', 'i', 't'];
    proof {
        assert(git@ =~= seq!['.', 'g', 'i', 't']);
    }
    if contains_component(path, &git) {
        return true;
    }
    if !mentions_node_modules {
        let nm: Vec<char> = vec!['n', 'o', 'd', 'e', '_', 'm', 'o', 'd', 'u', 'l', 'e', 's'];
        proof {
            assert(nm@ =~= seq!['n', 'o', 'd', 'e', '_', 'm', 'o', 'd', 'u', 'l', 'e', 's']);
        }
        if contains_component(path, &nm) {
            return true;
        }
    }
    false
}

/// A stripped remainder with any leading separators dropped: component-wise
/// prefix stripping leaves no leading separator behind, so neither does this.
pub open spec fn trim_leading_seps(s: Seq<char>) -> Seq<char>
    decreases s.len(),
{
    if s.len() > 0 && s[0] == '/' {
        trim_leading_seps(s.drop_first())
    } else {
        s
    }
}

/// The path of an entry relative to the walk's root: the root itself becomes
/// empty, a path under the root loses the root, its separator and any doubled
/// separators after it, and a path elsewhere is kept whole.
pub open spec fn rel_of(root: Seq<char>, path: Seq<char>) -> Seq<char> {
    if path == root {
        Seq::empty()
    } else if root.len() > 0 && root.last() == '/' && root.is_prefix_of(path) {
        trim_leading_seps(path.skip(root.len() as int))
    } else if (root + seq!['/']).is_prefix_of(path) {
        trim_leading_seps(path.skip(root.len() as int + 1))
    } else {
        path
    }
}

/// Executable relative-path computation matching [`rel_of`].
pub fn normalize_relative_path(root: &Vec<char>, path: &Vec<char>) -> (r: Vec<char>)
    ensures
        r@ == rel_of(root@, path@),
{
    if chars_equal(path, root) {
        let empty: Vec<char> = Vec::new();
        proof {
            assert(empty@ =~= Seq::<char>::empty());
        }
        return empty;
    }
    let mut rooted: Vec<char> = root.clone();
    let strip_len: usize = if rooted.len() > 0 && rooted[rooted.len() - 1] == '/' {
        rooted.len()
    } else {
        rooted.push('/');
        proof {
            assert(rooted@ =~= root@ + seq!['/']);
        }
        rooted.len()
    };
    if starts_with_chars(path, &rooted) {
        let mut i: usize = strip_len;
        while i < path.len() && path[i] == '/'
            invariant
                strip_len <= i <= path@.len(),
                trim_leading_seps(path@.skip(strip_len as int)) == trim_leading_seps(
                    path@.skip(i as int),
                ),
            decreases path@.len() - i,
        {
            proof {
                assert(path@.skip(i as int).drop_first() =~= path@.skip(i + 1));
            }
            i = i + 1;
        }
        proof {
            assert(trim_leading_seps(path@.skip(i as int)) == path@.skip(i as int));
        }
        let ghost rest_start = i as int;
        let mut out: Vec<char> = Vec::new();
        while i < path.len()
            invariant
                0 <= rest_start <= i <= path@.len(),
                out@ == path@.subrange(rest_start, i as int),
            decreases path@.len() - i,
        {
            out.push(path[i]);
            i = i + 1;
            proof {
                assert(out@ =~= path@.subrange(rest_start, i as int));
            }
        }
        proof {
            assert(out@ =~= path@.skip(rest_start));
            if root@.len() > 0 && root@.last() == '/' {
                assert(root@.is_prefix_of(path@));
            } else {
                assert((root@ + seq!['/']).is_prefix_of(path@));
            }
        }
        out
    } else {
        proof {
            if root@.len() > 0 && root@.last() == '/' {
                if root@.is_prefix_of(path@) {
                    assert(path@.subrange(0, rooted@.len() as int) =~= rooted@);
                }
            } else {
                if (root@ + seq!['/']).is_prefix_of(path@) {
                    assert(path@.subrange(0, rooted@.len() as int) =~= rooted@);
                }
            }
        }
        path.clone()
    }
}

/// A single walk result: a root-relative, forward-slash path and its type.
pub struct FindMatch {
    pub path: String,
    pub file_type: FileKind,
}

/// What a finished walk returns: the capped matches, in walk order, and how
/// many there are.
pub struct FindResult {
    pub matches: Vec<FindMatch>,
    pub total_matches: u32,
}

/// Why a walk could not start.
#[derive(Debug)]
pub enum FindError {
    /// The glob pattern was rejected by the compiler; the message says why.
    InvalidPattern(String),
}

/// The walk request as a caller states it; unset options take the defaults:
/// no type filter, hidden entries excluded, no result cap, ignore rules on.
pub struct FindOptions {
    pub pattern: String,
    pub path: String,
    pub file_type: Option<FileKind>,
    pub hidden: Option<bool>,
    pub max_results: Option<u32>,
    pub gitignore: Option<bool>,
}

/// Whether a pattern textually mentions `node_modules`, which disables that
/// directory's exclusion for the whole walk.
pub open spec fn spec_mentions_node_modules(pattern: Seq<char>) -> bool {
    contains_seq(pattern, seq!['n', 'o', 'd', 'e', '_', 'm', 'o', 'd', 'u', 'l', 'e', 's'])
}

/// The walk parameters derived from a request: the normalized pattern, each
/// policy with its default filled in, and the `node_modules` override.
pub struct WalkPlan {
    pub pattern: String,
    pub include_hidden: bool,
    pub file_type_filter: Option<FileKind>,
    pub max_results: usize,
    pub use_gitignore: bool,
    pub mentions_node_modules: bool,
}

/// Turn a request into walk parameters: trim the pattern (an empty one means
/// match everything), default to hidden entries excluded, no cap, and ignore
/// rules honored.
pub fn plan_find(options: &FindOptions) -> (r: WalkPlan)
    ensures
        r.pattern@ == spec_normalize_pattern(options.pattern@),
        r.include_hidden == (if options.hidden is Some {
            options.hidden->0
        } else {
            false
        }),
        r.file_type_filter == options.file_type,
        r.max_results as nat == (if options.max_results is Some {
            options.max_results->0 as nat
        } else {
            usize::MAX as nat
        }),
        r.use_gitignore == (if options.gitignore is Some {
            options.gitignore->0
        } else {
            true
        }),
        r.mentions_node_modules == spec_mentions_node_modules(
            spec_normalize_pattern(options.pattern@),
        ),
{
    let pattern = normalize_pattern(options.pattern.as_str());
    let pattern_chars = str_chars(pattern.as_str());
    let nm: Vec<char> = vec!['n', 'o', 'd', 'e', '_', 'm', 'o', 'd', 'u', 'l', 'e', 's'];
    proof {
        assert(nm@ =~= seq!['n', 'o', 'd', 'e', '_', 'm', 'o', 'd', 'u', 'l', 'e', 's']);
    }
    let mentions_node_modules = contains_chars(&pattern_chars, &nm);
    let include_hidden = match options.hidden {
        Some(h) => h,
        None => false,
    };
    let use_gitignore = match options.gitignore {
        Some(g) => g,
        None => true,
    };
    let max_results: usize = match options.max_results {
        Some(v) => v as usize,
        None => usize::MAX,
    };
    WalkPlan {
        pattern,
        include_hidden,
        file_type_filter: options.file_type,
        max_results,
        use_gitignore,
        mentions_node_modules,
    }
}

/// Everything that decides one entry's fate, as one mathematical value: the
/// built glob pattern, the root, the two skip-list and hidden policies, the
/// separator convention, the type filter and the result cap.
#[verifier::ext_equal]
pub ghost struct WalkConfig {
    pub pattern: Seq<char>,
    pub root: Seq<char>,
    pub mentions_node_modules: bool,
    pub include_hidden: bool,
    pub fold_backslashes: bool,
    pub filter: Option<FileKind>,
    pub cap: nat,
}

/// An entry's root-relative path under a configuration.
pub open spec fn cfg_rel(c: WalkConfig, path: Seq<char>) -> Seq<char> {
    rel_of(
        normalize_seps(c.fold_backslashes, c.root),
        normalize_seps(c.fold_backslashes, path),
    )
}

/// Whether an entry joins the results: not on the hard skip list, not the
/// root itself, not hidden (unless hidden entries were asked for), matched by
/// the glob against its relative path, and of the requested type.
pub open spec fn cfg_admits(c: WalkConfig, path: Seq<char>, kind: FileKind) -> bool {
    let p = normalize_seps(c.fold_backslashes, path);
    let rel = cfg_rel(c, path);
    &&& !spec_should_skip(p, c.mentions_node_modules)
    &&& rel.len() > 0
    &&& (c.include_hidden || !has_hidden_component(rel))
    &&& glob_match(c.pattern, rel)
    &&& (c.filter is None || c.filter->0 == kind)
}

/// What a walk collects from a stream of entries when `taken` results are
/// already in hand: each admitted entry contributes its relative path and
/// type, in stream order, and collection stops dead at the cap.
pub open spec fn spec_collect(
    c: WalkConfig,
    entries: Seq<(Seq<char>, FileKind)>,
    taken: nat,
) -> Seq<(Seq<char>, FileKind)>
    decreases entries.len(),
{
    if taken >= c.cap || entries.len() == 0 {
        Seq::empty()
    } else if cfg_admits(c, entries[0].0, entries[0].1) {
        seq![(cfg_rel(c, entries[0].0), entries[0].1)] + spec_collect(
            c,
            entries.drop_first(),
            taken + 1,
        )
    } else {
        spec_collect(c, entries.drop_first(), taken)
    }
}

/// Compile a user pattern into a matcher, rewriting it first so a bare
/// pattern matches at any depth. This succeeds exactly when the rewritten
/// pattern compiles; a rejected pattern surfaces as
/// [`FindError::InvalidPattern`] with the compiler's message.
pub fn compile_glob(glob: &str, fold_backslashes: bool) -> (r: Result<
    globset::GlobSet,
    FindError,
>)
    ensures
        r is Ok <==> glob_compiles(spec_build_glob_pattern(glob@, fold_backslashes)),
        r matches Ok(g) ==> glob_set_pattern(g) == spec_build_glob_pattern(
            glob@,
            fold_backslashes,
        ),
{
    let pattern = build_glob_pattern(glob, fold_backslashes);
    match compile_glob_set(pattern.as_str()) {
        Ok(g) => Ok(g),
        Err(e) => Err(FindError::InvalidPattern(glob_error_message(&e))),
    }
}

/// An in-progress bounded walk: the compiled matcher, the policies it was
/// started with, and the matches taken so far. The driver that owns the
/// filesystem feeds it entries one at a time and must stop when told.
pub struct FindWalk {
    glob_set: globset::GlobSet,
    root: String,
    mentions_node_modules: bool,
    include_hidden: bool,
    fold_backslashes: bool,
    file_type_filter: Option<FileKind>,
    max_results: usize,
    matches: Vec<FindMatch>,
}

impl FindWalk {
    /// The walk's decision configuration.
    pub closed spec fn cfg(self) -> WalkConfig {
        WalkConfig {
            pattern: glob_set_pattern(self.glob_set),
            root: self.root@,
            mentions_node_modules: self.mentions_node_modules,
            include_hidden: self.include_hidden,
            fold_backslashes: self.fold_backslashes,
            filter: self.file_type_filter,
            cap: self.max_results as nat,
        }
    }

    /// The matches taken so far, as relative path and type pairs.
    pub closed spec fn matches_view(self) -> Seq<(Seq<char>, FileKind)> {
        self.matches@.map_values(|m: FindMatch| (m.path@, m.file_type))
    }

    /// Start a walk: compile the (already normalized) pattern and remember
    /// the policies. This succeeds exactly when the rewritten pattern
    /// compiles; nothing else can fail.
    pub fn new(
        root: String,
        pattern: &str,
        include_hidden: bool,
        fold_backslashes: bool,
        file_type_filter: Option<FileKind>,
        max_results: usize,
        mentions_node_modules: bool,
    ) -> (r: Result<FindWalk, FindError>)
        ensures
            r is Ok <==> glob_compiles(spec_build_glob_pattern(pattern@, fold_backslashes)),
            r matches Ok(w) ==> w.cfg() == (WalkConfig {
                pattern: spec_build_glob_pattern(pattern@, fold_backslashes),
                root: root@,
                mentions_node_modules,
                include_hidden,
                fold_backslashes,
                filter: file_type_filter,
                cap: max_results as nat,
            }) && w.matches_view() == Seq::<(Seq<char>, FileKind)>::empty(),
    {
        let glob_set = match compile_glob(pattern, fold_backslashes) {
            Ok(g) => g,
            Err(e) => {
                return Err(e);
            },
        };
        let w = FindWalk {
            glob_set,
            root,
            mentions_node_modules,
            include_hidden,
            fold_backslashes,
            file_type_filter,
            max_results,
            matches: Vec::new(),
        };
        proof {
            assert(w.matches_view() =~= Seq::<(Seq<char>, FileKind)>::empty());
        }
        Ok(w)
    }

    /// Whether the walk still has room under its cap. A driver checks this
    /// before any filesystem work; a cap of zero means no entry is ever read.
    pub fn wants_more(&self) -> (r: bool)
        ensures
            r == (self.matches_view().len() < self.cfg().cap),
    {
        self.matches.len() < self.max_results
    }

    /// Decide one entry: an admitted entry joins the matches under its
    /// relative path; anything else leaves the walk unchanged. The result
    /// says whether the walk still has room — `false` stops the driver.
    pub fn offer(&mut self, path: &str, kind: FileKind) -> (r: bool)
        ensures
            final(self).cfg() == old(self).cfg(),
            final(self).matches_view() == (if old(self).matches_view().len() < old(
                self,
            ).cfg().cap && cfg_admits(old(self).cfg(), path@, kind) {
                old(self).matches_view().push((cfg_rel(old(self).cfg(), path@), kind))
            } else {
                old(self).matches_view()
            }),
            r == (final(self).matches_view().len() < final(self).cfg().cap),
    {
        if self.matches.len() >= self.max_results {
            return false;
        }
        let path_chars = str_chars(path);
        let p = normalize_seps_exec(&path_chars, self.fold_backslashes);
        if should_skip_path(&p, self.mentions_node_modules) {
            return true;
        }
        let root_chars = str_chars(self.root.as_str());
        let root_n = normalize_seps_exec(&root_chars, self.fold_backslashes);
        let rel = normalize_relative_path(&root_n, &p);
        if rel.len() == 0 {
            return true;
        }
        if !self.include_hidden && has_hidden_component_exec(&rel) {
            return true;
        }
        let rel_s = chars_to_string(&rel);
        if !glob_set_is_match(&self.glob_set, rel_s.as_str()) {
            return true;
        }
        match self.file_type_filter {
            Some(k) => {
                if k != kind {
                    return true;
                }
            },
            None => {},
        }
        let ghost before = self.matches_view();
        self.matches.push(FindMatch { path: rel_s, file_type: kind });
        proof {
            assert(self.matches_view() =~= before.push((cfg_rel(old(self).cfg(), path@), kind)));
        }
        self.matches.len() < self.max_results
    }

    /// Close the walk and shape its outcome: the matches, in the order they
    /// were taken, and their count.
    pub fn finish(self) -> (r: FindResult)
        ensures
            r.matches@.map_values(|m: FindMatch| (m.path@, m.file_type)) == self.matches_view(),
            r.matches@.len() == self.matches_view().len(),
            r.total_matches as nat == (if self.matches_view().len() <= u32::MAX as nat {
                self.matches_view().len()
            } else {
                u32::MAX as nat
            }),
    {
        let total: u32 = if self.matches.len() > (u32::MAX as usize) {
            u32::MAX
        } else {
            self.matches.len() as u32
        };
        FindResult { matches: self.matches, total_matches: total }
    }
}

/// One entry of a directory-tree snapshot: its full path and its type.
pub struct WalkEntry {
    pub path: String,
    pub kind: FileKind,
}

/// Run a bounded walk to completion against a snapshot of the tree's entries,
/// in the order the tree iterator yields them. The result holds exactly what
/// [`spec_collect`] says: each admitted entry's relative path and type, in
/// order, stopping at the cap, and counted by `total_matches`; a cap of zero
/// leaves the result empty; the matches never outnumber the cap. The walk
/// fails exactly when the rewritten pattern does not compile.
#[verifier::loop_isolation(false)]
pub fn run_find(
    root: String,
    pattern: &str,
    include_hidden: bool,
    fold_backslashes: bool,
    file_type_filter: Option<FileKind>,
    max_results: usize,
    mentions_node_modules: bool,
    entries: &Vec<WalkEntry>,
) -> (r: Result<FindResult, FindError>)
    ensures
        ({
            let c = WalkConfig {
                pattern: spec_build_glob_pattern(pattern@, fold_backslashes),
                root: root@,
                mentions_node_modules,
                include_hidden,
                fold_backslashes,
                filter: file_type_filter,
                cap: max_results as nat,
            };
            let ev = entries@.map_values(|e: WalkEntry| (e.path@, e.kind));
            &&& (r is Err <==> !glob_compiles(spec_build_glob_pattern(
                pattern@,
                fold_backslashes,
            )))
            &&& (r matches Ok(res) ==> res.matches@.map_values(
                |m: FindMatch| (m.path@, m.file_type),
            ) == spec_collect(c, ev, 0))
            &&& (r matches Ok(res) ==> res.matches@.len() <= max_results)
            &&& (r matches Ok(res) ==> res.total_matches as nat == (
                if res.matches@.len() <= u32::MAX as nat {
                    res.matches@.len()
                } else {
                    u32::MAX as nat
                }))
            &&& (max_results == 0 ==> (r matches Ok(res) ==> res.matches@.len() == 0
                && res.total_matches == 0))
        }),
{
    let ghost c = WalkConfig {
        pattern: spec_build_glob_pattern(pattern@, fold_backslashes),
        root: root@,
        mentions_node_modules,
        include_hidden,
        fold_backslashes,
        filter: file_type_filter,
        cap: max_results as nat,
    };
    let ghost ev = entries@.map_values(|e: WalkEntry| (e.path@, e.kind));
    let mut walk = match FindWalk::new(
        root,
        pattern,
        include_hidden,
        fold_backslashes,
        file_type_filter,
        max_results,
        mentions_node_modules,
    ) {
        Ok(w) => w,
        Err(e) => {
            return Err(e);
        },
    };
    proof {
        assert(walk.cfg() =~= c);
        assert(ev.skip(0) =~= ev);
    }
    let mut i: usize = 0;
    let mut more = walk.wants_more();
    while more && i < entries.len()
        invariant
            walk.cfg() == c,
            i <= ev.len(),
            walk.matches_view().len() <= c.cap,
            more == (walk.matches_view().len() < c.cap),
            spec_collect(c, ev, 0) == walk.matches_view() + spec_collect(
                c,
                ev.skip(i as int),
                walk.matches_view().len() as nat,
            ),
        decreases ev.len() - i,
    {
        let ghost taken = walk.matches_view().len() as nat;
        let ghost rest = ev.skip(i as int);
        let e = &entries[i];
        more = walk.offer(e.path.as_str(), e.kind);
        proof {
            assert(rest[0] == ev[i as int]);
            assert(rest.drop_first() =~= ev.skip(i + 1));
            if cfg_admits(c, ev[i as int].0, ev[i as int].1) {
                assert(spec_collect(c, rest, taken) == seq![
                    (cfg_rel(c, rest[0].0), rest[0].1),
                ] + spec_collect(c, rest.drop_first(), taken + 1));
                assert(spec_collect(c, ev, 0) =~= walk.matches_view() + spec_collect(
                    c,
                    ev.skip(i + 1),
                    walk.matches_view().len() as nat,
                ));
            } else {
                assert(spec_collect(c, rest, taken) == spec_collect(
                    c,
                    rest.drop_first(),
                    taken,
                ));
            }
        }
        i = i + 1;
    }
    proof {
        if !more {
            assert(spec_collect(c, ev.skip(i as int), walk.matches_view().len() as nat)
                =~= Seq::<(Seq<char>, FileKind)>::empty());
        } else {
            assert(ev.skip(i as int) =~= Seq::<(Seq<char>, FileKind)>::empty());
        }
        assert(spec_collect(c, ev, 0) =~= walk.matches_view());
    }
    Ok(walk.finish())
}

/// Lexicographic order on paths, by character code point.
pub open spec fn lex_le(a: Seq<char>, b: Seq<char>) -> bool
    decreases a.len(),
{
    if a.len() == 0 {
        true
    } else if b.len() == 0 {
        false
    } else if a[0] == b[0] {
        lex_le(a.drop_first(), b.drop_first())
    } else {
        (a[0] as u32) < (b[0] as u32)
    }
}

/// Every path is lexicographically at or after itself.
pub proof fn lemma_lex_le_refl(a: Seq<char>)
    ensures
        lex_le(a, a),
    decreases a.len(),
{
    if a.len() > 0 {
        lemma_lex_le_refl(a.drop_first());
    }
}

/// Position `k` of the collected matches is at or after the bound `b`.
pub open spec fn collect_bounded_at(
    c: WalkConfig,
    entries: Seq<(Seq<char>, FileKind)>,
    taken: nat,
    b: Seq<char>,
    k: int,
) -> bool {
    lex_le(b, spec_collect(c, entries, taken)[k].0)
}

/// A lower bound on every entry's relative path is a lower bound on every
/// collected match.
pub proof fn lemma_collect_lower_bound(
    c: WalkConfig,
    entries: Seq<(Seq<char>, FileKind)>,
    taken: nat,
    b: Seq<char>,
)
    requires
        forall|k: int| 0 <= k < entries.len() ==> lex_le(b, cfg_rel(c, #[trigger] entries[k].0)),
    ensures
        forall|k: int|
            0 <= k < spec_collect(c, entries, taken).len() ==> #[trigger] collect_bounded_at(
                c,
                entries,
                taken,
                b,
                k,
            ),
    decreases entries.len(),
{
    if taken >= c.cap || entries.len() == 0 {
    } else {
        let whole = spec_collect(c, entries, taken);
        let head_taken = cfg_admits(c, entries[0].0, entries[0].1);
        let next_taken: nat = if head_taken {
            taken + 1
        } else {
            taken
        };
        assert forall|k: int|
            0 <= k < entries.drop_first().len() implies lex_le(
            b,
            cfg_rel(c, #[trigger] entries.drop_first()[k].0),
        ) by {
            assert(entries.drop_first()[k] == entries[k + 1]);
        }
        lemma_collect_lower_bound(c, entries.drop_first(), next_taken, b);
        let rest = spec_collect(c, entries.drop_first(), next_taken);
        assert forall|k: int| 0 <= k < whole.len() implies #[trigger] collect_bounded_at(
            c,
            entries,
            taken,
            b,
            k,
        ) by {
            if head_taken {
                if k == 0 {
                    assert(whole[0].0 == cfg_rel(c, entries[0].0));
                } else {
                    assert(whole[k] == rest[k - 1]);
                    assert(collect_bounded_at(c, entries.drop_first(), next_taken, b, k - 1));
                }
            } else {
                assert(whole[k] == rest[k]);
                assert(collect_bounded_at(c, entries.drop_first(), next_taken, b, k));
            }
        }
    }
}

/// Positions `i` and `j` of the collected matches are in lexicographic order.
pub open spec fn collect_sorted_at(
    c: WalkConfig,
    entries: Seq<(Seq<char>, FileKind)>,
    taken: nat,
    i: int,
    j: int,
) -> bool {
    lex_le(spec_collect(c, entries, taken)[i].0, spec_collect(c, entries, taken)[j].0)
}

/// When the entries arrive with their relative paths in lexicographic order —
/// as a tree iterator that sorts siblings by path yields them — the collected
/// matches keep that order: the walk never reorders, it only filters and
/// truncates.
pub proof fn lemma_collect_sorted(
    c: WalkConfig,
    entries: Seq<(Seq<char>, FileKind)>,
    taken: nat,
)
    requires
        forall|i: int, j: int|
            0 <= i < j < entries.len() ==> lex_le(
                cfg_rel(c, #[trigger] entries[i].0),
                cfg_rel(c, #[trigger] entries[j].0),
            ),
    ensures
        forall|i: int, j: int|
            0 <= i < j < spec_collect(c, entries, taken).len() ==> #[trigger] collect_sorted_at(
                c,
                entries,
                taken,
                i,
                j,
            ),
    decreases entries.len(),
{
    if taken >= c.cap || entries.len() == 0 {
    } else {
        let whole = spec_collect(c, entries, taken);
        let head_taken = cfg_admits(c, entries[0].0, entries[0].1);
        let next_taken: nat = if head_taken {
            taken + 1
        } else {
            taken
        };
        assert forall|i: int, j: int|
            0 <= i < j < entries.drop_first().len() implies lex_le(
            cfg_rel(c, #[trigger] entries.drop_first()[i].0),
            cfg_rel(c, #[trigger] entries.drop_first()[j].0),
        ) by {
            assert(entries.drop_first()[i] == entries[i + 1]);
            assert(entries.drop_first()[j] == entries[j + 1]);
        }
        lemma_collect_sorted(c, entries.drop_first(), next_taken);
        let rest = spec_collect(c, entries.drop_first(), next_taken);
        if head_taken {
            let b = cfg_rel(c, entries[0].0);
            assert forall|k: int|
                0 <= k < entries.drop_first().len() implies lex_le(
                b,
                cfg_rel(c, #[trigger] entries.drop_first()[k].0),
            ) by {
                assert(entries.drop_first()[k] == entries[k + 1]);
                if k + 1 == 0 {
                } else {
                    lemma_lex_le_refl(b);
                }
            }
            lemma_collect_lower_bound(c, entries.drop_first(), next_taken, b);
        }
        assert forall|i: int, j: int|
            0 <= i < j < whole.len() implies #[trigger] collect_sorted_at(
            c,
            entries,
            taken,
            i,
            j,
        ) by {
            if head_taken {
                if i == 0 {
                    assert(whole[0].0 == cfg_rel(c, entries[0].0));
                    assert(whole[j] == rest[j - 1]);
                    assert(collect_bounded_at(
                        c,
                        entries.drop_first(),
                        next_taken,
                        cfg_rel(c, entries[0].0),
                        j - 1,
                    ));
                } else {
                    assert(whole[i] == rest[i - 1]);
                    assert(whole[j] == rest[j - 1]);
                    assert(collect_sorted_at(c, entries.drop_first(), next_taken, i - 1, j - 1));
                }
            } else {
                assert(whole[i] == rest[i]);
                assert(whole[j] == rest[j]);
                assert(collect_sorted_at(c, entries.drop_first(), next_taken, i, j));
            }
        }
    }
}

/// Dropping a shared leading prefix keeps lexicographic order.
pub proof fn lemma_lex_le_common_prefix(q: Seq<char>, x: Seq<char>, y: Seq<char>)
    requires
        lex_le(q + x, q + y),
    ensures
        lex_le(x, y),
    decreases q.len(),
{
    if q.len() == 0 {
        assert(q + x =~= x);
        assert(q + y =~= y);
    } else {
        assert((q + x)[0] == q[0]);
        assert((q + y)[0] == q[0]);
        assert((q + x).drop_first() =~= q.drop_first() + x);
        assert((q + y).drop_first() =~= q.drop_first() + y);
        lemma_lex_le_common_prefix(q.drop_first(), x, y);
    }
}

/// An entry strictly below the walk's root, written with exactly one
/// separator at the root boundary: its normalized path continues the
/// normalized root with `/` and no further separator right after.
pub open spec fn under_root(c: WalkConfig, path: Seq<char>) -> bool {
    let root = normalize_seps(c.fold_backslashes, c.root);
    let p = normalize_seps(c.fold_backslashes, path);
    &&& (root + seq!['/']).is_prefix_of(p)
    &&& (root.len() + 1 < p.len() ==> p[root.len() as int + 1] != '/')
}

/// For entries below a root that carries no trailing separator, relative
/// paths inherit the order of the full paths: stripping the root is dropping
/// a shared prefix.
pub proof fn lemma_rel_keeps_order(c: WalkConfig, a: Seq<char>, b: Seq<char>)
    requires
        normalize_seps(c.fold_backslashes, c.root).len() == 0 || normalize_seps(
            c.fold_backslashes,
            c.root,
        ).last() != '/',
        under_root(c, a),
        under_root(c, b),
        lex_le(normalize_seps(c.fold_backslashes, a), normalize_seps(c.fold_backslashes, b)),
    ensures
        lex_le(cfg_rel(c, a), cfg_rel(c, b)),
{
    let root = normalize_seps(c.fold_backslashes, c.root);
    let q = root + seq!['/'];
    let an = normalize_seps(c.fold_backslashes, a);
    let bn = normalize_seps(c.fold_backslashes, b);
    assert(an != root) by {
        if an == root {
            assert(q.len() <= an.len());
        }
    }
    assert(bn != root) by {
        if bn == root {
            assert(q.len() <= bn.len());
        }
    }
    assert(trim_leading_seps(an.skip(root.len() as int + 1)) == an.skip(root.len() as int + 1));
    assert(trim_leading_seps(bn.skip(root.len() as int + 1)) == bn.skip(root.len() as int + 1));
    assert(cfg_rel(c, a) == an.skip(root.len() as int + 1));
    assert(cfg_rel(c, b) == bn.skip(root.len() as int + 1));
    assert(an =~= q + an.skip(q.len() as int));
    assert(bn =~= q + bn.skip(q.len() as int));
    lemma_lex_le_common_prefix(q, an.skip(q.len() as int), bn.skip(q.len() as int));
}

/// The full order law: when a walk's entries all lie below the root and
/// arrive sorted by full path — as a tree iterator that sorts siblings by
/// path yields them — the collected matches are sorted by relative path.
pub proof fn lemma_collect_sorted_by_path(
    c: WalkConfig,
    entries: Seq<(Seq<char>, FileKind)>,
    taken: nat,
)
    requires
        normalize_seps(c.fold_backslashes, c.root).len() == 0 || normalize_seps(
            c.fold_backslashes,
            c.root,
        ).last() != '/',
        forall|k: int| 0 <= k < entries.len() ==> under_root(c, #[trigger] entries[k].0),
        forall|i: int, j: int|
            0 <= i < j < entries.len() ==> lex_le(
                normalize_seps(c.fold_backslashes, #[trigger] entries[i].0),
                normalize_seps(c.fold_backslashes, #[trigger] entries[j].0),
            ),
    ensures
        forall|i: int, j: int|
            0 <= i < j < spec_collect(c, entries, taken).len() ==> #[trigger] collect_sorted_at(
                c,
                entries,
                taken,
                i,
                j,
            ),
{
    assert forall|i: int, j: int|
        0 <= i < j < entries.len() implies lex_le(
        cfg_rel(c, #[trigger] entries[i].0),
        cfg_rel(c, #[trigger] entries[j].0),
    ) by {
        lemma_rel_keeps_order(c, entries[i].0, entries[j].0);
    }
    lemma_collect_sorted(c, entries, taken);
}

/// Position `k` of the collected matches has no hidden path component.
pub open spec fn collect_unhidden_at(
    c: WalkConfig,
    entries: Seq<(Seq<char>, FileKind)>,
    taken: nat,
    k: int,
) -> bool {
    !has_hidden_component(spec_collect(c, entries, taken)[k].0)
}

/// Unless hidden entries were asked for, no collected match has a hidden
/// component in its relative path: a file named `.env` never appears.
pub proof fn lemma_hidden_excluded(
    c: WalkConfig,
    entries: Seq<(Seq<char>, FileKind)>,
    taken: nat,
)
    requires
        !c.include_hidden,
    ensures
        forall|k: int|
            0 <= k < spec_collect(c, entries, taken).len() ==> #[trigger] collect_unhidden_at(
                c,
                entries,
                taken,
                k,
            ),
    decreases entries.len(),
{
    if taken >= c.cap || entries.len() == 0 {
    } else {
        let whole = spec_collect(c, entries, taken);
        let head_taken = cfg_admits(c, entries[0].0, entries[0].1);
        let next_taken: nat = if head_taken {
            taken + 1
        } else {
            taken
        };
        lemma_hidden_excluded(c, entries.drop_first(), next_taken);
        let rest = spec_collect(c, entries.drop_first(), next_taken);
        assert forall|k: int| 0 <= k < whole.len() implies #[trigger] collect_unhidden_at(
            c,
            entries,
            taken,
            k,
        ) by {
            if head_taken {
                if k == 0 {
                    assert(whole[0].0 == cfg_rel(c, entries[0].0));
                } else {
                    assert(whole[k] == rest[k - 1]);
                    assert(collect_unhidden_at(c, entries.drop_first(), next_taken, k - 1));
                }
            } else {
                assert(whole[k] == rest[k]);
                assert(collect_unhidden_at(c, entries.drop_first(), next_taken, k));
            }
        }
    }
}

/// Repeating an identical walk over an unchanged snapshot yields an identical
/// ordered result: what a walk returns is a function of its configuration and
/// the entries alone.
pub proof fn lemma_walk_idempotent(
    c: WalkConfig,
    entries: Seq<(Seq<char>, FileKind)>,
    first: Seq<(Seq<char>, FileKind)>,
    second: Seq<(Seq<char>, FileKind)>,
)
    requires
        first == spec_collect(c, entries, 0),
        second == spec_collect(c, entries, 0),
    ensures
        first == second,
{
}

} // verus!

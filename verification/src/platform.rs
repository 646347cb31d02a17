//! Platform helpers: paths, and what the managed block of `~/.zshrc` says
//! is active.
use vstd::prelude::*;
use crate::text::{
    chars_of, cat, has_prefix, lines, lines_of, seqs_of, slice, split_once, split_once_at, starts_with,
    strings_of, strip_prefix, strs_of, trim, trim_chars, trim_matches, trim_matches_chars, without_prefix,
    same, push_str, push_all, split, split_at_char, lemma_split_nonempty, string_of, find_sub, occurs_at,
    lemma_find_sub, lemma_lines_are_pieces, lemma_no_marker_start, lemma_split_concat, lemma_split_single,
};
use crate::activation::Platform;

verus! {

/// The line that opens the managed block.
pub open spec fn block_start() -> Seq<char> {
    "# >>> NovaEnv managed >>>"@
}

/// The line that closes the managed block.
pub open spec fn block_end() -> Seq<char> {
    "# <<< NovaEnv managed <<<"@
}

/// The line that opens the managed block.
pub fn block_start_chars() -> (r: Vec<char>)
    ensures
        r@ == block_start(),
{
    chars_of("# >>> NovaEnv managed >>>")
}

/// The line that closes the managed block.
pub fn block_end_chars() -> (r: Vec<char>)
    ensures
        r@ == block_end(),
{
    chars_of("# <<< NovaEnv managed <<<")
}

/// The variables that name the home of a runtime.
pub open spec fn is_home_var(v: Seq<char>) -> bool {
    ||| v == "JAVA_HOME"@
    ||| v == "NODE_HOME"@
    ||| v == "GOROOT"@
    ||| v == "MAVEN_HOME"@
    ||| v == "PYTHON_HOME"@
    ||| v == "RUST_HOME"@
}

/// Whether `v` names the home of a runtime.
fn home_var(v: &[char]) -> (r: bool)
    ensures
        r == is_home_var(v@),
{
    let a = chars_of("JAVA_HOME");
    let b = chars_of("NODE_HOME");
    let c = chars_of("GOROOT");
    let d = chars_of("MAVEN_HOME");
    let e = chars_of("PYTHON_HOME");
    let f = chars_of("RUST_HOME");
    same(v, a.as_slice()) || same(v, b.as_slice()) || same(v, c.as_slice()) || same(v, d.as_slice())
        || same(v, e.as_slice()) || same(v, f.as_slice())
}

/// The path an `export VAR="path"` line sets, when `VAR` names the home of
/// a runtime and the path (without white space around it, and without the
/// double and then single quotes at its ends) is not empty.
pub open spec fn export_value(t: Seq<char>) -> Seq<Seq<char>> {
    match strip_prefix(t, "export "@) {
        None => seq![],
        Some(rest) => match split_once(rest, '=') {
            None => seq![],
            Some(kv) => if is_home_var(trim(kv.0)) {
                let v = trim_matches(trim_matches(trim(kv.1), '"'), '\'');
                if v.len() > 0 {
                    seq![v]
                } else {
                    seq![]
                }
            } else {
                seq![]
            },
        },
    }
}

/// The paths set by the lines `ls`, `in_block` telling whether the managed
/// block is open: a line starting with the opening marker opens it, one
/// starting with the closing marker ends the reading, and only the exports
/// inside the block count.
pub open spec fn block_paths(ls: Seq<Seq<char>>, in_block: bool) -> Seq<Seq<char>>
    decreases ls.len(),
{
    if ls.len() == 0 {
        seq![]
    } else {
        let t = trim(ls[0]);
        if starts_with(t, block_start()) {
            block_paths(ls.drop_first(), true)
        } else if starts_with(t, block_end()) {
            seq![]
        } else if !in_block {
            block_paths(ls.drop_first(), false)
        } else {
            export_value(t) + block_paths(ls.drop_first(), true)
        }
    }
}

/// The runtime homes that the managed block of `content` activates, in
/// order.
pub open spec fn active_paths(content: Seq<char>) -> Seq<Seq<char>> {
    block_paths(lines(content), false)
}

/// The path an `export` line sets, if any.
fn export_path(t: &[char]) -> (r: Option<Vec<char>>)
    ensures
        match r {
            Some(v) => export_value(t@) == seq![v@],
            None => export_value(t@) == Seq::<Seq<char>>::empty(),
        },
{
    let prefix = chars_of("export ");
    let rest = match without_prefix(t, prefix.as_slice()) {
        Some(rest) => rest,
        None => return None,
    };
    let (var, value) = match split_once_at(rest.as_slice(), '=') {
        Some(kv) => kv,
        None => return None,
    };
    let var_t = trim_chars(var.as_slice());
    if !home_var(var_t.as_slice()) {
        return None;
    }
    let v0 = trim_chars(value.as_slice());
    let v1 = trim_matches_chars(v0.as_slice(), '"');
    let v2 = trim_matches_chars(v1.as_slice(), '\'');
    if v2.len() > 0 {
        Some(v2)
    } else {
        None
    }
}

/// The runtime homes that the managed block of a `.zshrc` activates
/// (`JAVA_HOME`, `NODE_HOME`, `GOROOT`, `MAVEN_HOME`, `PYTHON_HOME`,
/// `RUST_HOME`), in order; exports outside the block are ignored.
pub fn parse_active_config(content: &str) -> (r: Vec<String>)
    ensures
        strs_of(r@) == active_paths(content@),
{
    let c = chars_of(content);
    let ls = lines_of(c.as_slice());
    let start = block_start_chars();
    let end = block_end_chars();
    let mut paths: Vec<Vec<char>> = Vec::new();
    let mut in_block = false;
    let mut i: usize = 0;
    let ghost all = seqs_of(ls@);
    assert(all.skip(0) =~= all);
    while i < ls.len()
        invariant
            i <= ls@.len(),
            all == seqs_of(ls@),
            all == lines(c@),
            c@ == content@,
            start@ == block_start(),
            end@ == block_end(),
            active_paths(content@) == seqs_of(paths@) + block_paths(all.skip(i as int), in_block),
        ensures
            active_paths(content@) =~= seqs_of(paths@),
        decreases ls@.len() - i,
    {
        let ghost rest = all.skip(i as int);
        assert(rest[0] == ls@[i as int]@);
        assert(rest.drop_first() =~= all.skip(i + 1));
        let t = trim_chars(ls[i].as_slice());
        if has_prefix(t.as_slice(), start.as_slice()) {
            in_block = true;
        } else if has_prefix(t.as_slice(), end.as_slice()) {
            assert(seqs_of(paths@) + Seq::<Seq<char>>::empty() =~= seqs_of(paths@));
            break;
        } else if in_block {
            let ghost before = paths@;
            match export_path(t.as_slice()) {
                Some(v) => {
                    paths.push(v);
                    assert(seqs_of(paths@) =~= seqs_of(before) + export_value(t@));
                },
                None => {
                },
            }
            assert(seqs_of(paths@) + block_paths(all.skip(i + 1), in_block) =~= seqs_of(before)
                + export_value(t@) + block_paths(all.skip(i + 1), in_block));
        }
        i = i + 1;
        if i >= ls.len() {
            assert(all.skip(i as int) =~= Seq::<Seq<char>>::empty());
            assert(seqs_of(paths@) + Seq::<Seq<char>>::empty() =~= seqs_of(paths@));
        }
    }
    strings_of(&paths)
}

/// Lines outside the block that mark nothing do not count.
pub proof fn lemma_block_paths_outside(ls1: Seq<Seq<char>>, ls2: Seq<Seq<char>>)
    requires
        forall|k: int| 0 <= k < ls1.len() ==> !starts_with(trim(#[trigger] ls1[k]), block_start())
            && !starts_with(trim(ls1[k]), block_end()),
    ensures
        block_paths(ls1 + ls2, false) == block_paths(ls2, false),
    decreases ls1.len(),
{
    if ls1.len() > 0 {
        let t = ls1.drop_first();
        assert forall|k: int| 0 <= k < t.len() implies !starts_with(trim(#[trigger] t[k]), block_start())
            && !starts_with(trim(t[k]), block_end()) by {
            assert(t[k] == ls1[k + 1]);
        }
        lemma_block_paths_outside(t, ls2);
        assert((ls1 + ls2)[0] == ls1[0]);
        assert((ls1 + ls2).drop_first() =~= t + ls2);
    } else {
        assert(ls1 + ls2 =~= ls2);
    }
}

/// Inside the block, lines that do not close it add their paths.
pub proof fn lemma_block_paths_inside(ls1: Seq<Seq<char>>, ls2: Seq<Seq<char>>)
    requires
        forall|k: int| 0 <= k < ls1.len() ==> !starts_with(trim(#[trigger] ls1[k]), block_end()),
    ensures
        block_paths(ls1 + ls2, true) == block_paths(ls1, true) + block_paths(ls2, true),
    decreases ls1.len(),
{
    if ls1.len() > 0 {
        let t = ls1.drop_first();
        assert forall|k: int| 0 <= k < t.len() implies !starts_with(trim(#[trigger] t[k]), block_end()) by {
            assert(t[k] == ls1[k + 1]);
        }
        lemma_block_paths_inside(t, ls2);
        assert((ls1 + ls2)[0] == ls1[0]);
        assert((ls1 + ls2).drop_first() =~= t + ls2);
        let tr = trim(ls1[0]);
        if starts_with(tr, block_start()) {
        } else {
            assert(export_value(tr) + block_paths(t, true) + block_paths(ls2, true) =~= export_value(tr)
                + (block_paths(t, true) + block_paths(ls2, true)));
        }
    } else {
        assert(ls1 + ls2 =~= ls2);
        assert(Seq::<Seq<char>>::empty() + block_paths(ls2, true) =~= block_paths(ls2, true));
    }
}

// ---------------------------------------------------------------------------
// Paths
// ---------------------------------------------------------------------------

/// Whether `c` separates path components on `platform`.
pub open spec fn is_sep(platform: Platform, c: char) -> bool {
    c == '/' || (platform == Platform::Windows && c == '\\')
}

/// The separator `platform` writes between components.
pub open spec fn sep_of(platform: Platform) -> char {
    if platform == Platform::Windows {
        '\\'
    } else {
        '/'
    }
}

/// Whether `b` replaces what it is joined to: it starts with a
/// separator, or on Windows with a drive (`C:`).
pub open spec fn replaces(platform: Platform, b: Seq<char>) -> bool {
    (b.len() > 0 && is_sep(platform, b[0])) || (platform == Platform::Windows && b.len() >= 2 && b[1] == ':')
}

/// `a` joined with `b` (`PathBuf::join`): `b` alone when it replaces `a`;
/// else a separator between them unless `a` is empty or already ends with
/// one.
pub open spec fn join_spec(platform: Platform, a: Seq<char>, b: Seq<char>) -> Seq<char> {
    if replaces(platform, b) {
        b
    } else if a.len() == 0 || is_sep(platform, a.last()) {
        a + b
    } else {
        a + seq![sep_of(platform)] + b
    }
}

/// `a` joined with `b`.
pub fn path_join(platform: Platform, a: &str, b: &str) -> (r: String)
    ensures
        r@ == join_spec(platform, a@, b@),
{
    let bv = chars_of(b);
    let windows = platform == Platform::Windows;
    if (bv.len() > 0 && (bv[0] == '/' || (windows && bv[0] == '\\'))) || (windows && bv.len() >= 2 && bv[1]
        == ':') {
        return string_of(bv.as_slice());
    }
    let mut v = chars_of(a);
    let n = v.len();
    let ends_with_sep = n > 0 && (v[n - 1] == '/' || (windows && v[n - 1] == '\\'));
    if n > 0 && !ends_with_sep {
        if windows {
            v.push('\\');
        } else {
            v.push('/');
        }
    }
    push_all(&mut v, bv.as_slice());
    string_of(v.as_slice())
}

/// The program `name` in the `bin` directory of `dir` (with `.exe` on
/// Windows).
pub open spec fn bin_path_spec(platform: Platform, dir: Seq<char>, name: Seq<char>) -> Seq<char> {
    join_spec(
        platform,
        join_spec(platform, dir, "bin"@),
        if platform == Platform::Windows {
            name + ".exe"@
        } else {
            name
        },
    )
}

/// The program `name` in the `bin` directory of `dir`.
pub fn bin_path(platform: Platform, dir: &str, name: &str) -> (r: String)
    ensures
        r@ == bin_path_spec(platform, dir@, name@),
{
    let b = path_join(platform, dir, "bin");
    if platform == Platform::Windows {
        let mut f = chars_of(name);
        push_str(&mut f, ".exe");
        let fs = string_of(f.as_slice());
        path_join(platform, b.as_str(), fs.as_str())
    } else {
        path_join(platform, b.as_str(), name)
    }
}

/// `p` with each separator of `platform` written as `/`.
pub open spec fn slashed(platform: Platform, p: Seq<char>) -> Seq<char> {
    Seq::new(p.len(), |i: int| if is_sep(platform, p[i]) {
        '/'
    } else {
        p[i]
    })
}

/// The pieces between separators, without empty ones and `.`.
pub open spec fn normal_pieces(ps: Seq<Seq<char>>) -> Seq<Seq<char>>
    decreases ps.len(),
{
    if ps.len() == 0 {
        seq![]
    } else {
        let rest = normal_pieces(ps.drop_last());
        if ps.last().len() == 0 || ps.last() == "."@ {
            rest
        } else {
            rest.push(ps.last())
        }
    }
}

/// The components of a path (`Path::components`): the root (written `/`)
/// when it starts with a separator, a leading `.` when it starts with one,
/// then its pieces between separators that are neither empty nor `.`.
pub open spec fn components(platform: Platform, p: Seq<char>) -> Seq<Seq<char>> {
    let ps = split(slashed(platform, p), '/');
    if p.len() > 0 && is_sep(platform, p[0]) {
        seq!["/"@] + normal_pieces(ps.drop_first())
    } else if ps[0] == "."@ {
        seq!["."@] + normal_pieces(ps.drop_first())
    } else {
        normal_pieces(ps)
    }
}

/// Whether the components of `base` begin those of `path`
/// (`Path::starts_with`).
pub open spec fn path_starts_with(platform: Platform, path: Seq<char>, base: Seq<char>) -> bool {
    let a = components(platform, path);
    let b = components(platform, base);
    b.len() <= a.len() && a.take(b.len() as int) == b
}

/// `p` with its separators written as `/`.
fn slashed_of(platform: Platform, p: &str) -> (r: Vec<char>)
    ensures
        r@ == slashed(platform, p@),
{
    let v = chars_of(p);
    let mut r: Vec<char> = Vec::new();
    let mut i: usize = 0;
    while i < v.len()
        invariant
            i <= v@.len(),
            v@ == p@,
            r@.len() == i,
            forall|j: int| 0 <= j < i ==> #[trigger] r@[j] == (if is_sep(platform, v@[j]) {
                '/'
            } else {
                v@[j]
            }),
        decreases v@.len() - i,
    {
        let c = v[i];
        if c == '/' || (platform == Platform::Windows && c == '\\') {
            r.push('/');
        } else {
            r.push(c);
        }
        i = i + 1;
    }
    assert(r@ =~= slashed(platform, p@));
    r
}

/// The pieces of `ps` from index `from` on that are neither empty nor `.`.
fn normal_pieces_of(ps: &Vec<Vec<char>>, from: usize) -> (r: Vec<Vec<char>>)
    requires
        from <= ps@.len(),
    ensures
        seqs_of(r@) == normal_pieces(seqs_of(ps@).skip(from as int)),
{
    let dot = chars_of(".");
    let ghost all = seqs_of(ps@).skip(from as int);
    let mut r: Vec<Vec<char>> = Vec::new();
    let mut i: usize = from;
    assert(all.take(0) =~= Seq::<Seq<char>>::empty());
    while i < ps.len()
        invariant
            from <= i <= ps@.len(),
            dot@ == "."@,
            all == seqs_of(ps@).skip(from as int),
            seqs_of(r@) == normal_pieces(all.take(i - from)),
        decreases ps@.len() - i,
    {
        proof {
            let t = all.take(i + 1 - from);
            assert(t.drop_last() =~= all.take(i - from));
            assert(t.last() == ps@[i as int]@);
        }
        if !(ps[i].len() == 0 || same(ps[i].as_slice(), dot.as_slice())) {
            let ghost before = seqs_of(r@);
            r.push(crate::text::slice(ps[i].as_slice(), 0, ps[i].len()));
            assert(ps@[i as int]@.subrange(0, ps@[i as int]@.len() as int) =~= ps@[i as int]@);
            assert(seqs_of(r@) =~= before.push(ps@[i as int]@));
        }
        i = i + 1;
    }
    assert(all.take(ps@.len() - from) =~= all);
    r
}

/// The components of `p`.
pub(crate) fn components_of(platform: Platform, p: &str) -> (r: Vec<Vec<char>>)
    ensures
        seqs_of(r@) == components(platform, p@),
{
    let s = slashed_of(platform, p);
    let ps = split_at_char(s.as_slice(), '/');
    proof {
        lemma_split_nonempty(s@, '/');
    }
    let raw = chars_of(p);
    let dot = chars_of(".");
    if raw.len() > 0 && (raw[0] == '/' || (platform == Platform::Windows && raw[0] == '\\')) {
        let rest = normal_pieces_of(&ps, 1);
        let mut r: Vec<Vec<char>> = Vec::new();
        r.push(chars_of("/"));
        let mut k: usize = 0;
        while k < rest.len()
            invariant
                k <= rest@.len(),
                r@.len() == k + 1,
                seqs_of(r@) == seq!["/"@] + seqs_of(rest@).take(k as int),
            decreases rest@.len() - k,
        {
            let ghost before = seqs_of(r@);
            r.push(crate::text::slice(rest[k].as_slice(), 0, rest[k].len()));
            assert(rest@[k as int]@.subrange(0, rest@[k as int]@.len() as int) =~= rest@[k as int]@);
            assert(seqs_of(rest@).take(k + 1) =~= seqs_of(rest@).take(k as int).push(rest@[k as int]@));
            assert(seqs_of(r@) =~= before.push(rest@[k as int]@));
            k = k + 1;
        }
        assert(seqs_of(rest@).take(rest@.len() as int) =~= seqs_of(rest@));
        assert(seqs_of(ps@).skip(1) =~= seqs_of(ps@).drop_first());
        r
    } else if same(ps[0].as_slice(), dot.as_slice()) {
        let rest = normal_pieces_of(&ps, 1);
        let mut r: Vec<Vec<char>> = Vec::new();
        r.push(chars_of("."));
        let mut k: usize = 0;
        while k < rest.len()
            invariant
                k <= rest@.len(),
                r@.len() == k + 1,
                seqs_of(r@) == seq!["."@] + seqs_of(rest@).take(k as int),
            decreases rest@.len() - k,
        {
            let ghost before = seqs_of(r@);
            r.push(crate::text::slice(rest[k].as_slice(), 0, rest[k].len()));
            assert(rest@[k as int]@.subrange(0, rest@[k as int]@.len() as int) =~= rest@[k as int]@);
            assert(seqs_of(rest@).take(k + 1) =~= seqs_of(rest@).take(k as int).push(rest@[k as int]@));
            assert(seqs_of(r@) =~= before.push(rest@[k as int]@));
            k = k + 1;
        }
        assert(seqs_of(rest@).take(rest@.len() as int) =~= seqs_of(rest@));
        assert(seqs_of(ps@).skip(1) =~= seqs_of(ps@).drop_first());
        r
    } else {
        let r = normal_pieces_of(&ps, 0);
        assert(seqs_of(ps@).skip(0) =~= seqs_of(ps@));
        r
    }
}

/// Whether `path` lies under `base`, component by component.
pub fn starts_with_path(platform: Platform, path: &str, base: &str) -> (r: bool)
    ensures
        r == path_starts_with(platform, path@, base@),
{
    let a = components_of(platform, path);
    let b = components_of(platform, base);
    if b.len() > a.len() {
        return false;
    }
    let mut i: usize = 0;
    while i < b.len()
        invariant
            b@.len() <= a@.len(),
            i <= b@.len(),
            seqs_of(a@) == components(platform, path@),
            seqs_of(b@) == components(platform, base@),
            forall|j: int| 0 <= j < i ==> a@[j]@ == b@[j]@,
        decreases b@.len() - i,
    {
        if !same(a[i].as_slice(), b[i].as_slice()) {
            assert(seqs_of(a@).take(b@.len() as int)[i as int] == a@[i as int]@);
            assert(seqs_of(b@)[i as int] == b@[i as int]@);
            proof {
                let ta = seqs_of(a@).take(b@.len() as int);
                assert(ta[i as int] != seqs_of(b@)[i as int]);
                assert(ta != seqs_of(b@));
            }
            return false;
        }
        i = i + 1;
    }
    assert(seqs_of(a@).take(b@.len() as int) =~= seqs_of(b@));
    true
}

/// The last component of `p` when it is a name (`Path::file_name`): none
/// for an empty path, the root, `.` or `..`.
pub open spec fn file_name_spec(platform: Platform, p: Seq<char>) -> Option<Seq<char>> {
    let cs = components(platform, p);
    if cs.len() == 0 || cs.last() == "/"@ || cs.last() == "."@ || cs.last() == ".."@ {
        None
    } else {
        Some(cs.last())
    }
}

/// The file name of `p`.
pub fn file_name(platform: Platform, p: &str) -> (r: Option<String>)
    ensures
        match file_name_spec(platform, p@) {
            Some(n) => r matches Some(s) && s@ == n,
            None => r is None,
        },
{
    let cs = components_of(platform, p);
    if cs.len() == 0 {
        return None;
    }
    let last = &cs[cs.len() - 1];
    assert(seqs_of(cs@).last() == last@);
    let root = chars_of("/");
    let dot = chars_of(".");
    let dotdot = chars_of("..");
    if same(last.as_slice(), root.as_slice()) || same(last.as_slice(), dot.as_slice()) || same(
        last.as_slice(),
        dotdot.as_slice(),
    ) {
        None
    } else {
        Some(string_of(last.as_slice()))
    }
}

/// Whether two paths have the same components (`PathBuf` equality).
pub open spec fn same_path_spec(platform: Platform, a: Seq<char>, b: Seq<char>) -> bool {
    components(platform, a) == components(platform, b)
}

/// Whether two paths have the same components.
pub fn same_path(platform: Platform, a: &str, b: &str) -> (r: bool)
    ensures
        r == same_path_spec(platform, a@, b@),
{
    let x = components_of(platform, a);
    let y = components_of(platform, b);
    if x.len() != y.len() {
        assert(seqs_of(x@).len() != seqs_of(y@).len());
        return false;
    }
    let mut i: usize = 0;
    while i < x.len()
        invariant
            x@.len() == y@.len(),
            i <= x@.len(),
            seqs_of(x@) == components(platform, a@),
            seqs_of(y@) == components(platform, b@),
            forall|j: int| 0 <= j < i ==> x@[j]@ == y@[j]@,
        decreases x@.len() - i,
    {
        if !same(x[i].as_slice(), y[i].as_slice()) {
            assert(seqs_of(x@)[i as int] != seqs_of(y@)[i as int]);
            return false;
        }
        i = i + 1;
    }
    assert(seqs_of(x@) =~= seqs_of(y@));
    true
}

/// Without the opening marker no line opens the block, so nothing is read.
proof fn lemma_block_paths_closed(ls: Seq<Seq<char>>)
    requires
        forall|k: int| 0 <= k < ls.len() ==> !starts_with(trim(#[trigger] ls[k]), block_start()),
    ensures
        block_paths(ls, false) == Seq::<Seq<char>>::empty(),
    decreases ls.len(),
{
    if ls.len() > 0 {
        let t = ls.drop_first();
        assert forall|k: int| 0 <= k < t.len() implies !starts_with(trim(#[trigger] t[k]), block_start()) by {
            assert(t[k] == ls[k + 1]);
        }
        lemma_block_paths_closed(t);
    }
}

/// A `.zshrc` without the opening marker of the managed block activates
/// nothing, whatever it exports.
pub proof fn law_no_block_no_paths(content: Seq<char>)
    requires
        find_sub(content, block_start()) is None,
    ensures
        active_paths(content) == Seq::<Seq<char>>::empty(),
{
    lemma_find_sub(content, block_start());
    lemma_lines_are_pieces(content);
    let ls = lines(content);
    assert forall|k: int| 0 <= k < ls.len() implies !starts_with(trim(#[trigger] ls[k]), block_start()) by {
        lemma_no_marker_start(ls[k], content, block_start());
    }
    lemma_block_paths_closed(ls);
}


/// Writing separators as `/` works piece by piece.
proof fn lemma_slashed_concat(platform: Platform, x: Seq<char>, y: Seq<char>)
    ensures
        slashed(platform, x + y) == slashed(platform, x) + slashed(platform, y),
{
    assert(slashed(platform, x + y) =~= slashed(platform, x) + slashed(platform, y));
}

/// The normal pieces of two lists are those of each in turn.
proof fn lemma_normal_pieces_concat(p: Seq<Seq<char>>, q: Seq<Seq<char>>)
    ensures
        normal_pieces(p + q) == normal_pieces(p) + normal_pieces(q),
    decreases q.len(),
{
    if q.len() == 0 {
        assert(p + q =~= p);
        assert(normal_pieces(p) + normal_pieces(q) =~= normal_pieces(p));
    } else {
        lemma_normal_pieces_concat(p, q.drop_last());
        assert((p + q).drop_last() =~= p + q.drop_last());
        assert((p + q).last() == q.last());
        if q.last().len() == 0 || q.last() == "."@ {
        } else {
            assert(normal_pieces(p) + normal_pieces(q.drop_last()).push(q.last()) =~= (normal_pieces(p)
                + normal_pieces(q.drop_last())).push(q.last()));
        }
    }
}

/// The empty path has no components.
proof fn lemma_components_empty(platform: Platform)
    ensures
        components(platform, Seq::<char>::empty()) == Seq::<Seq<char>>::empty(),
{
    let e = Seq::<char>::empty();
    assert(slashed(platform, e) =~= e);
    assert(!e.contains('/'));
    lemma_split_single(e, '/');
    reveal_strlit(".");
    assert(e != "."@);
    let ps = split(slashed(platform, e), '/');
    assert(ps =~= seq![e]);
    assert(ps.drop_last() =~= Seq::<Seq<char>>::empty());
    assert(normal_pieces(Seq::<Seq<char>>::empty()) =~= Seq::<Seq<char>>::empty());
    assert(ps.last() == e);
    assert(ps.len() > 0 && ps[0] != "."@);
    assert(!(e.len() > 0 && is_sep(platform, e[0])));
    assert(normal_pieces(ps) =~= Seq::<Seq<char>>::empty());
    assert(components(platform, e) == normal_pieces(ps));
}

/// Joining a name that does not replace the path adds components after
/// those of the path.
pub proof fn lemma_join_components(platform: Platform, a: Seq<char>, b: Seq<char>)
    requires
        a.len() > 0,
        !replaces(platform, b),
    ensures
        components(platform, join_spec(platform, a, b)) == components(platform, a) + normal_pieces(
            split(slashed(platform, b), '/'),
        ),
{
    let j = join_spec(platform, a, b);
    let sb = slashed(platform, b);
    let pb = split(sb, '/');
    let ends = is_sep(platform, a.last());
    // The part of `a` before the separator that precedes `b` in the join.
    let a0 = if ends {
        a.drop_last()
    } else {
        a
    };
    let sa0 = slashed(platform, a0);
    let pa = split(sa0, '/');
    if ends {
        assert(a =~= a0 + seq![a.last()]);
        assert(j =~= a0 + seq![a.last()] + b);
        lemma_slashed_concat(platform, a0 + seq![a.last()], b);
        lemma_slashed_concat(platform, a0, seq![a.last()]);
        assert(slashed(platform, seq![a.last()]) =~= seq!['/']);
        lemma_split_concat(sa0, Seq::<char>::empty(), '/');
        assert(sa0 + seq!['/'] + Seq::<char>::empty() =~= slashed(platform, a));
        assert(split(Seq::<char>::empty(), '/') =~= seq![Seq::<char>::empty()]) by {
            lemma_split_single(Seq::<char>::empty(), '/');
        }
    } else {
        assert(j =~= a + seq![sep_of(platform)] + b);
        lemma_slashed_concat(platform, a + seq![sep_of(platform)], b);
        lemma_slashed_concat(platform, a, seq![sep_of(platform)]);
        assert(slashed(platform, seq![sep_of(platform)]) =~= seq!['/']);
    }
    assert(slashed(platform, j) =~= sa0 + seq!['/'] + sb);
    lemma_split_concat(sa0, sb, '/');
    lemma_split_nonempty(sa0, '/');
    lemma_split_nonempty(sb, '/');
    let ps = split(slashed(platform, j), '/');
    let pa_full = split(slashed(platform, a), '/');
    assert(ps == pa + pb);
    // What `a` splits into: `pa`, followed by an empty piece when it ends
    // with a separator.
    assert(pa_full == if ends {
        pa + seq![Seq::<char>::empty()]
    } else {
        pa
    });
    assert(normal_pieces(pa + seq![Seq::<char>::empty()]) == normal_pieces(pa)) by {
        assert((pa + seq![Seq::<char>::empty()]).drop_last() =~= pa);
    }
    assert(j[0] == a[0]);
    assert(ps[0] == pa[0]);
    assert(pa_full[0] == pa[0]);
    assert(ps.drop_first() =~= pa.drop_first() + pb);
    lemma_normal_pieces_concat(pa.drop_first(), pb);
    lemma_normal_pieces_concat(pa, pb);
    if ends {
        assert(pa_full.drop_first() =~= pa.drop_first() + seq![Seq::<char>::empty()]);
        lemma_normal_pieces_concat(pa.drop_first(), seq![Seq::<char>::empty()]);
        lemma_normal_pieces_concat(pa, seq![Seq::<char>::empty()]);
        assert(normal_pieces(seq![Seq::<char>::empty()]) =~= Seq::<Seq<char>>::empty()) by {
            assert(seq![Seq::<char>::empty()].drop_last() =~= Seq::<Seq<char>>::empty());
        }
    }
    if is_sep(platform, a[0]) {
        assert(components(platform, j) =~= seq!["/"@] + normal_pieces(pa.drop_first()) + normal_pieces(pb));
        assert(components(platform, a) =~= seq!["/"@] + normal_pieces(pa.drop_first()));
    } else if pa[0] == "."@ {
        assert(components(platform, j) =~= seq!["."@] + normal_pieces(pa.drop_first()) + normal_pieces(pb));
        assert(components(platform, a) =~= seq!["."@] + normal_pieces(pa.drop_first()));
    } else {
        assert(components(platform, a) == normal_pieces(pa));
    }
}

/// A path joined with a name that does not replace it lies under it.
pub proof fn lemma_join_under(platform: Platform, a: Seq<char>, b: Seq<char>)
    requires
        !replaces(platform, b),
    ensures
        path_starts_with(platform, join_spec(platform, a, b), a),
{
    if a.len() == 0 {
        assert(a =~= Seq::<char>::empty());
        lemma_components_empty(platform);
        let c = components(platform, join_spec(platform, a, b));
        assert(c.take(0) =~= Seq::<Seq<char>>::empty());
    } else {
        lemma_join_components(platform, a, b);
        let ca = components(platform, a);
        let c = components(platform, join_spec(platform, a, b));
        assert(c.take(ca.len() as int) =~= ca);
    }
}

/// Lying under a path that lies under another lies under that one too.
pub proof fn lemma_under_trans(platform: Platform, x: Seq<char>, y: Seq<char>, z: Seq<char>)
    requires
        path_starts_with(platform, x, y),
        path_starts_with(platform, y, z),
    ensures
        path_starts_with(platform, x, z),
{
    let cx = components(platform, x);
    let cy = components(platform, y);
    let cz = components(platform, z);
    assert(cx.take(cz.len() as int) =~= cy.take(cz.len() as int));
}

} // verus!

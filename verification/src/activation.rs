//! Switching the default version of a runtime.
//!
//! On macOS the managed block of `~/.zshrc` is updated in place (the lines
//! of the switched runtime replaced, those of the others kept); on Windows a
//! PowerShell command sets the user environment.  The library computes what
//! is written; the caller writes it.
use vstd::prelude::*;
use crate::models::{env_var_of, RuntimeKind, RuntimeVersion};
use crate::platform::{
    active_paths, block_end, block_end_chars, block_paths, block_start, block_start_chars, export_value,
    is_home_var, lemma_block_paths_inside, lemma_block_paths_outside,
};
use crate::text::{
    cat, chars_of, push_str, find_sub, find_sub_in, has_prefix, join, join_with, lines, lines_of, owned, push_all,
    seqs_of, slice, split_once, split_once_at, starts_with, string_of, strip_prefix, strs_of, trim,
    trim_chars, trim_matches, trim_matches_chars, without_prefix, lemma_find_sub, strip_start_all,
    strip_end_all, lemma_trim_exact, is_ws, lemma_find_char_at, find_char, occurs_at, is_piece,
    all_ws, strip_all, strip_cr, split, lemma_trim_idem, lemma_trim_piece, lemma_piece_trans,
    lemma_piece_marker, lemma_no_marker_start, lemma_lines_are_pieces, lemma_lines_prefix,
    lemma_lines_prefix_empty, lemma_lines_first, lemma_lines_concat, lemma_lines_terminated,
    lemma_split_join, lemma_split_pieces, lemma_split_are_pieces, lemma_split_nonempty,
    lemma_trim_ws_prefix, lemma_piece_at, lemma_split_single, lemma_trim_end_last, lemma_find_sub_at, ends_with,
};

verus! {

/// The platform the library computes for.
#[derive(Debug, Clone, Copy, PartialEq, Eq, Structural)]
pub enum Platform {
    MacOs,
    Windows,
    Linux,
}

/// What a switch changes, shown before it is made.
#[derive(Debug, Clone)]
pub struct ActivationPreview {
    /// The configuration file that is changed (`~/.zshrc` on macOS).
    pub config_file: Option<String>,
    /// The lines that are written.
    pub lines: Vec<String>,
    /// The backup written first, if any.
    pub backup_path: Option<String>,
    /// A note for the platform.
    pub note: String,
}

/// What the caller does to switch.
#[derive(Debug, Clone)]
pub enum ActivationPlan {
    /// Copy the present `~/.zshrc` to `backup` (when there is one), replace
    /// `~/.zshrc` by `content`, then set the variables `env` in the running
    /// process and put the `bin` directory of `home` in front of its
    /// `PATH`, keeping the entries it had.
    WriteZshrc { content: String, env: Vec<(String, String)>, home: Option<String>, backup: Option<String> },
    /// Run `script` with PowerShell.
    RunPowerShell { script: String },
}

// ---------------------------------------------------------------------------
// Shell lines
// ---------------------------------------------------------------------------

/// The line that sets the home variable of `kind` to `path`.
pub open spec fn home_line(kind: RuntimeKind, path: Seq<char>) -> Seq<char> {
    "export "@ + env_var_of(kind) + "=\""@ + path + "\""@
}

/// The line that puts the `bin` directory of `kind` in front of `PATH`.
pub open spec fn path_line(kind: RuntimeKind) -> Seq<char> {
    "export PATH=\"$"@ + env_var_of(kind) + "/bin:$PATH\""@
}

/// The shell lines that make `path` the home of `kind`.
pub open spec fn shell_lines_spec(kind: RuntimeKind, path: Seq<char>) -> Seq<Seq<char>> {
    seq![home_line(kind, path), path_line(kind)]
}

/// The shell lines that make `version` the default of its runtime.
pub fn shell_lines(version: &RuntimeVersion) -> (r: Vec<String>)
    ensures
        strs_of(r@) == shell_lines_spec(version.kind, version.path@),
{
    let var = chars_of(version.kind.env_var_name());
    let mut a = chars_of("export ");
    push_all(&mut a, var.as_slice());
    push_all(&mut a, chars_of("=\"").as_slice());
    push_all(&mut a, chars_of(version.path.as_str()).as_slice());
    push_all(&mut a, chars_of("\"").as_slice());
    let mut b = chars_of("export PATH=\"$");
    push_all(&mut b, var.as_slice());
    push_all(&mut b, chars_of("/bin:$PATH\"").as_slice());
    let mut r: Vec<String> = Vec::new();
    r.push(string_of(a.as_slice()));
    r.push(string_of(b.as_slice()));
    assert(strs_of(r@) =~= shell_lines_spec(version.kind, version.path@));
    r
}

/// The variable and value of an `export K="V"` line: `K` without white
/// space around it, `V` without white space around it and without the
/// double and then single quotes at its ends.
pub open spec fn parse_export_spec(line: Seq<char>) -> Option<(Seq<char>, Seq<char>)> {
    match strip_prefix(line, "export "@) {
        None => None,
        Some(rest) => match split_once(rest, '=') {
            None => None,
            Some(kv) => Some((trim(kv.0), trim_matches(trim_matches(trim(kv.1), '"'), '\''))),
        },
    }
}

/// The variable and value of an `export K="V"` line.
pub fn parse_export(line: &str) -> (r: Option<(String, String)>)
    ensures
        match parse_export_spec(line@) {
            Some(kv) => r matches Some(p) && p.0@ == kv.0 && p.1@ == kv.1,
            None => r is None,
        },
{
    let l = chars_of(line);
    let prefix = chars_of("export ");
    let rest = match without_prefix(l.as_slice(), prefix.as_slice()) {
        Some(rest) => rest,
        None => return None,
    };
    let (k, v) = match split_once_at(rest.as_slice(), '=') {
        Some(kv) => kv,
        None => return None,
    };
    let k1 = trim_chars(k.as_slice());
    let v1 = trim_chars(v.as_slice());
    let v2 = trim_matches_chars(v1.as_slice(), '"');
    let v3 = trim_matches_chars(v2.as_slice(), '\'');
    Some((string_of(k1.as_slice()), string_of(v3.as_slice())))
}

// ---------------------------------------------------------------------------
// The managed block
// ---------------------------------------------------------------------------

/// The trimmed, non-empty lines of `ls` that set neither the home of the
/// switched runtime (`hp`) nor its `PATH` entry (`pp`).
pub open spec fn kept_lines(ls: Seq<Seq<char>>, hp: Seq<char>, pp: Seq<char>) -> Seq<Seq<char>>
    decreases ls.len(),
{
    if ls.len() == 0 {
        seq![]
    } else {
        let t = trim(ls.last());
        let k = kept_lines(ls.drop_last(), hp, pp);
        if t.len() == 0 || starts_with(t, hp) || starts_with(t, pp) {
            k
        } else {
            k.push(t)
        }
    }
}

/// The managed block holding `ls`.
pub open spec fn block_text(ls: Seq<Seq<char>>) -> Seq<char> {
    block_start() + seq!['\n'] + join(ls, '\n') + seq!['\n'] + block_end() + seq!['\n']
}

/// The prefix of the home line of `kind`.
pub open spec fn home_prefix(kind: RuntimeKind) -> Seq<char> {
    "export "@ + env_var_of(kind) + "="@
}

/// The prefix of the `PATH` line of `kind`.
pub open spec fn path_prefix(kind: RuntimeKind) -> Seq<char> {
    "export PATH=\"$"@ + env_var_of(kind) + "/bin"@
}

/// What follows a closing marker once the block is rewritten: the line
/// feed that ended the marker's line is written again with the block, so
/// it is dropped here.
pub open spec fn after_end(post: Seq<char>) -> Seq<char> {
    if post.len() > 0 && post[0] == '\n' {
        post.drop_first()
    } else {
        post
    }
}

/// `existing` with the managed block updated for `kind`:
/// - without a block, a new block holding `new_lines` is appended after a
///   line feed;
/// - with one, its lines for `kind` are replaced by `new_lines` (added at
///   its end) and the others kept, the text after the block unchanged (so
///   that switching to the same version again writes the same text);
/// - `None` when the block has no closing marker.
pub open spec fn upsert_spec(existing: Seq<char>, new_lines: Seq<Seq<char>>, kind: RuntimeKind) -> Option<
    Seq<char>,
> {
    match find_sub(existing, block_start()) {
        None => Some(existing + seq!['\n'] + block_text(new_lines)),
        Some(start) => match find_sub(existing.skip(start), block_end()) {
            None => None,
            Some(off) => {
                let end = start + off + block_end().len();
                let body = existing.subrange(start + block_start().len(), start + off);
                let kept = kept_lines(lines(body), home_prefix(kind), path_prefix(kind));
                Some(existing.take(start) + block_text(kept + new_lines) + after_end(existing.skip(end)))
            },
        },
    }
}

/// The closing marker cannot begin inside the opening one.
proof fn lemma_end_after_start(s: Seq<char>, off: int)
    requires
        0 <= off < block_start().len(),
        s.len() >= block_start().len(),
        s.take(block_start().len() as int) == block_start(),
        off + block_end().len() <= s.len(),
        s.subrange(off, off + block_end().len()) == block_end(),
    ensures
        off == 0 ==> false,
        false,
{
    reveal_strlit("# >>> NovaEnv managed >>>");
    reveal_strlit("# <<< NovaEnv managed <<<");
    assert(s.subrange(off, off + block_end().len())[0] == '#');
    assert(s[off] == '#');
    assert(s.take(block_start().len() as int)[off] == s[off]);
    if off == 0 {
        assert(s.subrange(off, off + block_end().len())[2] == '<');
        assert(s[2] == '<');
        assert(s.take(block_start().len() as int)[2] == '>');
    }
}

/// The kept lines of `ls`.
fn keep_lines(ls: &Vec<Vec<char>>, hp: &Vec<char>, pp: &Vec<char>) -> (r: Vec<Vec<char>>)
    ensures
        seqs_of(r@) == kept_lines(seqs_of(ls@), hp@, pp@),
{
    let mut r: Vec<Vec<char>> = Vec::new();
    let mut i: usize = 0;
    assert(seqs_of(ls@).take(0) =~= Seq::<Seq<char>>::empty());
    while i < ls.len()
        invariant
            i <= ls@.len(),
            seqs_of(r@) == kept_lines(seqs_of(ls@).take(i as int), hp@, pp@),
        decreases ls@.len() - i,
    {
        let t = trim_chars(ls[i].as_slice());
        proof {
            let s = seqs_of(ls@).take(i + 1);
            assert(s.drop_last() =~= seqs_of(ls@).take(i as int));
            assert(s.last() == ls@[i as int]@);
        }
        if !(t.len() == 0 || has_prefix(t.as_slice(), hp.as_slice()) || has_prefix(
            t.as_slice(),
            pp.as_slice(),
        )) {
            let ghost before = r@;
            r.push(t);
            assert(seqs_of(r@) =~= seqs_of(before).push(t@));
        }
        i = i + 1;
    }
    assert(seqs_of(ls@).take(ls@.len() as int) =~= seqs_of(ls@));
    r
}

/// The managed block holding `ls`.
fn block_of(ls: &Vec<Vec<char>>) -> (r: Vec<char>)
    ensures
        r@ == block_text(seqs_of(ls@)),
{
    let mut r = block_start_chars();
    r.push('\n');
    let j = join_with(ls, '\n');
    push_all(&mut r, j.as_slice());
    r.push('\n');
    push_all(&mut r, block_end_chars().as_slice());
    r.push('\n');
    assert(r@ =~= block_text(seqs_of(ls@)));
    r
}

/// The lines as character vectors.
fn lines_chars(v: &Vec<String>) -> (r: Vec<Vec<char>>)
    ensures
        seqs_of(r@) == strs_of(v@),
{
    let mut r: Vec<Vec<char>> = Vec::new();
    let mut i: usize = 0;
    while i < v.len()
        invariant
            i <= v@.len(),
            r@.len() == i,
            forall|j: int| 0 <= j < i ==> #[trigger] r@[j]@ == v@[j]@,
        decreases v@.len() - i,
    {
        r.push(chars_of(v[i].as_str()));
        i = i + 1;
    }
    assert(seqs_of(r@) =~= strs_of(v@));
    r
}

/// The message when the managed block has no closing marker.
pub open spec fn missing_end_message() -> Seq<char> {
    "~/.zshrc 中的 NovaEnv 管理块缺少结束标记，请手动检查该文件"@
}

/// Updates the managed block of `existing` (the content of `~/.zshrc`)
/// for `kind` with `new_lines`: the lines of `kind` are replaced, those of
/// the other runtimes kept, and a block is created when there is none.
pub fn upsert_managed_block(existing: &str, new_lines: &Vec<String>, kind: RuntimeKind) -> (r: Result<
    String,
    String,
>)
    ensures
        match upsert_spec(existing@, strs_of(new_lines@), kind) {
            Some(c) => r matches Ok(s) && s@ == c,
            None => r matches Err(e) && e@ == missing_end_message(),
        },
{
    let ex = chars_of(existing);
    let nl = lines_chars(new_lines);
    let start_m = block_start_chars();
    let end_m = block_end_chars();
    let var = chars_of(kind.env_var_name());
    let mut hp = chars_of("export ");
    push_all(&mut hp, var.as_slice());
    push_all(&mut hp, chars_of("=").as_slice());
    let mut pp = chars_of("export PATH=\"$");
    push_all(&mut pp, var.as_slice());
    push_all(&mut pp, chars_of("/bin").as_slice());
    assert(hp@ =~= home_prefix(kind));
    assert(pp@ =~= path_prefix(kind));
    let n = ex.len();
    match find_sub_in(ex.as_slice(), start_m.as_slice()) {
        None => {
            let mut out = ex;
            out.push('\n');
            push_all(&mut out, block_of(&nl).as_slice());
            assert(out@ =~= existing@ + seq!['\n'] + block_text(strs_of(new_lines@)));
            Ok(string_of(out.as_slice()))
        },
        Some(start) => {
            proof {
                lemma_find_sub(ex@, block_start());
            }
            let rest = slice(ex.as_slice(), start, n);
            assert(rest@ =~= ex@.skip(start as int));
            match find_sub_in(rest.as_slice(), end_m.as_slice()) {
                None => Err(owned("~/.zshrc 中的 NovaEnv 管理块缺少结束标记，请手动检查该文件")),
                Some(off) => {
                    proof {
                        lemma_find_sub(rest@, block_end());
                        if off < block_start().len() {
                            assert(rest@.take(block_start().len() as int) =~= ex@.subrange(
                                start as int,
                                start + block_start().len(),
                            ));
                            lemma_end_after_start(rest@, off as int);
                        }
                    }
                    let end = start + off + end_m.len();
                    let body = slice(ex.as_slice(), start + start_m.len(), start + off);
                    let body_lines = lines_of(body.as_slice());
                    let mut kept = keep_lines(&body_lines, &hp, &pp);
                    let ghost kept_v = seqs_of(kept@);
                    let mut k: usize = 0;
                    while k < nl.len()
                        invariant
                            k <= nl@.len(),
                            seqs_of(kept@) == kept_v + seqs_of(nl@).take(k as int),
                        decreases nl@.len() - k,
                    {
                        let ghost before = kept@;
                        kept.push(slice(nl[k].as_slice(), 0, nl[k].len()));
                        proof {
                            assert(nl@[k as int]@.subrange(0, nl@[k as int]@.len() as int) =~= nl@[k as int]@);
                            assert(seqs_of(kept@) =~= seqs_of(before).push(nl@[k as int]@));
                            assert(seqs_of(nl@).take(k + 1) =~= seqs_of(nl@).take(k as int).push(nl@[k as int]@));
                        }
                        k = k + 1;
                    }
                    assert(seqs_of(nl@).take(nl@.len() as int) =~= seqs_of(nl@));
                    let mut out = slice(ex.as_slice(), 0, start);
                    push_all(&mut out, block_of(&kept).as_slice());
                    let from = if end < n && ex[end] == '\n' {
                        end + 1
                    } else {
                        end
                    };
                    push_all(&mut out, slice(ex.as_slice(), from, n).as_slice());
                    assert(ex@.skip(from as int) =~= after_end(ex@.skip(end as int)));
                    assert(out@ =~= ex@.take(start as int) + block_text(seqs_of(kept@)) + after_end(ex@.skip(end as int)));
                    Ok(string_of(out.as_slice()))
                },
            }
        },
    }
}

// ---------------------------------------------------------------------------
// Previews and plans
// ---------------------------------------------------------------------------

/// The message when the home of a version is not a directory.
pub open spec fn missing_path_message(path: Seq<char>) -> Seq<char> {
    "安装路径不存在: "@ + path
}

/// The message on a platform where switching is not offered.
pub open spec fn unsupported_message() -> Seq<char> {
    "当前平台暂不支持切换默认版本（支持 macOS / Windows）"@
}

/// The note shown before a switch on macOS.
pub open spec fn zsh_note() -> Seq<char> {
    "切换后自动执行 source ~/.zshrc 刷新 shell 配置。"@
}

/// The note shown before a switch on Windows.
pub open spec fn windows_note() -> Seq<char> {
    "通过 PowerShell 写入用户级环境变量，重新打开终端后生效。"@
}

/// Checks that the home of `version` exists; `path_is_dir` is what the
/// caller found on disk.
pub fn validate(version: &RuntimeVersion, path_is_dir: bool) -> (r: Result<(), String>)
    ensures
        r is Ok <==> path_is_dir,
        r matches Err(e) ==> e@ == missing_path_message(version.path@),
{
    if !path_is_dir {
        let mut m = chars_of("安装路径不存在: ");
        push_str(&mut m, version.path.as_str());
        return Err(string_of(m.as_slice()));
    }
    Ok(())
}

/// `s` with each single quote doubled, as a PowerShell single-quoted
/// string holds it.
pub open spec fn ps_escaped(s: Seq<char>) -> Seq<char>
    decreases s.len(),
{
    if s.len() == 0 {
        seq![]
    } else {
        (if s[0] == '\'' {
            seq!['\'', '\'']
        } else {
            seq![s[0]]
        }) + ps_escaped(s.drop_first())
    }
}

/// What a PowerShell single-quoted string with body `t` stands for: a
/// doubled single quote is one quote.
pub open spec fn ps_unquoted(t: Seq<char>) -> Seq<char>
    decreases t.len(),
{
    if t.len() == 0 {
        seq![]
    } else if t.len() >= 2 && t[0] == '\'' && t[1] == '\'' {
        seq!['\''] + ps_unquoted(t.skip(2))
    } else {
        seq![t[0]] + ps_unquoted(t.drop_first())
    }
}

/// Escaping distributes over concatenation.
proof fn lemma_ps_escaped_concat(a: Seq<char>, b: Seq<char>)
    ensures
        ps_escaped(a + b) == ps_escaped(a) + ps_escaped(b),
    decreases a.len(),
{
    if a.len() == 0 {
        assert(a + b =~= b);
        assert(ps_escaped(a) + ps_escaped(b) =~= ps_escaped(b));
    } else {
        lemma_ps_escaped_concat(a.drop_first(), b);
        assert((a + b).drop_first() =~= a.drop_first() + b);
        assert((a + b)[0] == a[0]);
        let head = if a[0] == '\'' {
            seq!['\'', '\'']
        } else {
            seq![a[0]]
        };
        assert(head + (ps_escaped(a.drop_first()) + ps_escaped(b)) =~= head + ps_escaped(a.drop_first())
            + ps_escaped(b));
    }
}

/// `s` escaped for a PowerShell single-quoted string.
pub fn ps_escape(s: &str) -> (r: String)
    ensures
        r@ == ps_escaped(s@),
{
    let v = chars_of(s);
    let mut out: Vec<char> = Vec::new();
    let mut i: usize = 0;
    assert(v@.take(0) =~= Seq::<char>::empty());
    while i < v.len()
        invariant
            i <= v@.len(),
            out@ == ps_escaped(v@.take(i as int)),
        decreases v@.len() - i,
    {
        proof {
            let one = seq![v@[i as int]];
            lemma_ps_escaped_concat(v@.take(i as int), one);
            assert(v@.take(i + 1) =~= v@.take(i as int) + one);
            assert(one.drop_first() =~= Seq::<char>::empty());
            assert(one[0] == v@[i as int]);
            assert(ps_escaped(Seq::<char>::empty()) == Seq::<char>::empty());
            if v@[i as int] == '\'' {
                assert(ps_escaped(one) =~= seq!['\'', '\'']);
            } else {
                assert(ps_escaped(one) =~= one);
            }
        }
        if v[i] == '\'' {
            out.push('\'');
            out.push('\'');
        } else {
            out.push(v[i]);
        }
        i = i + 1;
    }
    assert(v@.take(v@.len() as int) =~= v@);
    string_of(out.as_slice())
}

/// A path written into a PowerShell single-quoted string reads back as
/// itself once its single quotes are doubled.
pub proof fn law_ps_escape_round_trip(s: Seq<char>)
    ensures
        ps_unquoted(ps_escaped(s)) == s,
    decreases s.len(),
{
    if s.len() > 0 {
        law_ps_escape_round_trip(s.drop_first());
        let e = ps_escaped(s);
        let rest = ps_escaped(s.drop_first());
        if s[0] == '\'' {
            assert(e =~= seq!['\'', '\''] + rest);
            assert(e.skip(2) =~= rest);
        } else {
            assert(e =~= seq![s[0]] + rest);
            assert(e.drop_first() =~= rest);
        }
        assert(s =~= seq![s[0]] + s.drop_first());
    }
}

/// The PowerShell command that makes `path` (escaped) the home `var` of
/// the user and puts its `bin` in front of the user's `Path` unless it is
/// there.
pub open spec fn windows_script_spec(var: Seq<char>, path: Seq<char>) -> Seq<char> {
    "[Environment]::SetEnvironmentVariable('"@ + var + "', '"@ + path + "', 'User'); $bin = '"@ + path
        + "\\bin'; $p = [Environment]::GetEnvironmentVariable('Path', 'User'); if ($p -notmatch [regex]::Escape($bin)) { [Environment]::SetEnvironmentVariable('Path', ($bin + ';' + $p), 'User') }"@
}

/// The PowerShell command that switches to `version`.
pub fn windows_script(version: &RuntimeVersion) -> (r: String)
    ensures
        r@ == windows_script_spec(env_var_of(version.kind), ps_escaped(version.path@)),
{
    let path = ps_escape(version.path.as_str());
    let mut s = chars_of("[Environment]::SetEnvironmentVariable('");
    push_str(&mut s, version.kind.env_var_name());
    push_str(&mut s, "', '");
    push_str(&mut s, path.as_str());
    push_str(&mut s, "', 'User'); $bin = '");
    push_str(&mut s, path.as_str());
    push_str(
        &mut s,
        "\\bin'; $p = [Environment]::GetEnvironmentVariable('Path', 'User'); if ($p -notmatch [regex]::Escape($bin)) { [Environment]::SetEnvironmentVariable('Path', ($bin + ';' + $p), 'User') }",
    );
    string_of(s.as_slice())
}

/// The Windows script sets the home variable to the path, names the
/// path's `bin` directory `$bin`, and, when the user `Path` does not hold
/// it yet, sets the user `Path` to `$bin` in front of the `Path` it had
/// (so the switched runtime is found first), as the preview says.
pub proof fn law_windows_bin_first(var: Seq<char>, path: Seq<char>)
    ensures
        starts_with(
            windows_script_spec(var, path),
            "[Environment]::SetEnvironmentVariable('"@ + var + "', '"@ + path + "', 'User');"@,
        ),
        is_piece("$bin = '"@ + path + "\\bin';"@, windows_script_spec(var, path)),
        ends_with(
            windows_script_spec(var, path),
            "if ($p -notmatch [regex]::Escape($bin)) { [Environment]::SetEnvironmentVariable('Path', ($bin + ';' + $p), 'User') }"@,
        ),
{
    let a = "[Environment]::SetEnvironmentVariable('"@;
    let b = "', '"@;
    let c = "', 'User'); $bin = '"@;
    let d = "\\bin'; $p = [Environment]::GetEnvironmentVariable('Path', 'User'); if ($p -notmatch [regex]::Escape($bin)) { [Environment]::SetEnvironmentVariable('Path', ($bin + ';' + $p), 'User') }"@;
    let c1 = "', 'User');"@;
    let c2 = " "@;
    let c3 = "$bin = '"@;
    let d1 = "\\bin';"@;
    let d2 = " $p = [Environment]::GetEnvironmentVariable('Path', 'User'); "@;
    let t = "if ($p -notmatch [regex]::Escape($bin)) { [Environment]::SetEnvironmentVariable('Path', ($bin + ';' + $p), 'User') }"@;
    reveal_strlit("', 'User'); $bin = '");
    reveal_strlit("\\bin'; $p = [Environment]::GetEnvironmentVariable('Path', 'User'); if ($p -notmatch [regex]::Escape($bin)) { [Environment]::SetEnvironmentVariable('Path', ($bin + ';' + $p), 'User') }");
    reveal_strlit("', 'User');");
    reveal_strlit(" ");
    reveal_strlit("$bin = '");
    reveal_strlit("\\bin';");
    reveal_strlit(" $p = [Environment]::GetEnvironmentVariable('Path', 'User'); ");
    reveal_strlit("if ($p -notmatch [regex]::Escape($bin)) { [Environment]::SetEnvironmentVariable('Path', ($bin + ';' + $p), 'User') }");
    assert(c =~= c1 + c2 + c3);
    assert(d =~= d1 + d2 + t);
    let x = windows_script_spec(var, path);
    let head = a + var + b + path + c1;
    let piece = c3 + path + d1;
    let rest = d2 + t;
    assert(x =~= head + c2 + piece + rest);
    assert(x.take(head.len() as int) =~= head);
    let at: int = (head.len() + c2.len()) as int;
    assert(x.subrange(at, at + piece.len()) =~= piece);
    lemma_piece_at(piece, x, at);
    assert(x.skip(x.len() - t.len()) =~= t);
}

/// The lines shown before a switch on Windows.
pub open spec fn windows_lines_spec(var: Seq<char>, path: Seq<char>) -> Seq<Seq<char>> {
    seq!["set "@ + var + " = \""@ + path + "\"（用户级）"@, "PATH 前置 "@ + path + "\\bin（用户级）"@]
}

/// Where `~/.zshrc` at `config_file` is copied before it is replaced.
pub open spec fn backup_spec(config_file: Seq<char>) -> Seq<char> {
    config_file + ".novaenv.bak"@
}

/// Where `~/.zshrc` is copied before it is replaced.
pub fn backup_path(config_file: &str) -> (r: String)
    ensures
        r@ == backup_spec(config_file@),
{
    let mut s = chars_of(config_file);
    push_str(&mut s, ".novaenv.bak");
    string_of(s.as_slice())
}

/// What a switch to `version` changes on `platform`; `path_is_dir` tells
/// whether its home exists, `config_file` is the path of `~/.zshrc` and
/// `config_exists` whether that file exists (it is then backed up first).
pub fn preview(version: &RuntimeVersion, platform: Platform, path_is_dir: bool, config_file: &str, config_exists: bool) -> (r:
    Result<ActivationPreview, String>)
    ensures
        !path_is_dir ==> (r matches Err(e) && e@ == missing_path_message(version.path@)),
        path_is_dir && platform == Platform::Linux ==> (r matches Err(e) && e@ == unsupported_message()),
        path_is_dir && platform == Platform::MacOs ==> (r matches Ok(p) && p.config_file matches Some(f)
            && f@ == config_file@ && strs_of(p.lines@) == shell_lines_spec(version.kind, version.path@)
            && (if config_exists {
            p.backup_path matches Some(b) && b@ == backup_spec(config_file@)
        } else {
            p.backup_path is None
        }) && p.note@ == zsh_note()),
        path_is_dir && platform == Platform::Windows ==> (r matches Ok(p) && p.config_file is None
            && strs_of(p.lines@) == windows_lines_spec(env_var_of(version.kind), version.path@)
            && p.backup_path is None && p.note@ == windows_note()),
{
    validate(version, path_is_dir)?;
    match platform {
        Platform::MacOs => Ok(
            ActivationPreview {
                config_file: Some(owned(config_file)),
                lines: shell_lines(version),
                backup_path: if config_exists {
                    Some(backup_path(config_file))
                } else {
                    None
                },
                note: owned("切换后自动执行 source ~/.zshrc 刷新 shell 配置。"),
            },
        ),
        Platform::Windows => {
            let var = version.kind.env_var_name();
            let mut a = chars_of("set ");
            push_str(&mut a, var);
            push_str(&mut a, " = \"");
            push_str(&mut a, version.path.as_str());
            push_str(&mut a, "\"（用户级）");
            let mut b = chars_of("PATH 前置 ");
            push_str(&mut b, version.path.as_str());
            push_str(&mut b, "\\bin（用户级）");
            let mut lines: Vec<String> = Vec::new();
            lines.push(string_of(a.as_slice()));
            lines.push(string_of(b.as_slice()));
            assert(strs_of(lines@) =~= windows_lines_spec(env_var_of(version.kind), version.path@));
            Ok(
                ActivationPreview {
                    config_file: None,
                    lines,
                    backup_path: None,
                    note: owned("通过 PowerShell 写入用户级环境变量，重新打开终端后生效。"),
                },
            )
        },
        Platform::Linux => Err(owned("当前平台暂不支持切换默认版本（支持 macOS / Windows）")),
    }
}

/// The variables and values that the `export` lines among `ls` set, in
/// order.
pub open spec fn exports_of(ls: Seq<Seq<char>>) -> Seq<(Seq<char>, Seq<char>)>
    decreases ls.len(),
{
    if ls.len() == 0 {
        seq![]
    } else {
        let rest = exports_of(ls.drop_last());
        match parse_export_spec(ls.last()) {
            Some(kv) => rest.push(kv),
            None => rest,
        }
    }
}

/// The pairs of strings as pairs of character sequences.
pub open spec fn pairs_of(v: Seq<(String, String)>) -> Seq<(Seq<char>, Seq<char>)> {
    Seq::new(v.len(), |i: int| (v[i].0@, v[i].1@))
}

/// The variables and values that the `export` lines among `lines` set.
fn exports(lines: &Vec<String>) -> (r: Vec<(String, String)>)
    ensures
        pairs_of(r@) == exports_of(strs_of(lines@)),
{
    let mut r: Vec<(String, String)> = Vec::new();
    let mut i: usize = 0;
    assert(strs_of(lines@).take(0) =~= Seq::<Seq<char>>::empty());
    assert(pairs_of(r@) =~= Seq::<(Seq<char>, Seq<char>)>::empty());
    while i < lines.len()
        invariant
            i <= lines@.len(),
            pairs_of(r@) == exports_of(strs_of(lines@).take(i as int)),
        decreases lines@.len() - i,
    {
        proof {
            let s = strs_of(lines@).take(i + 1);
            assert(s.drop_last() =~= strs_of(lines@).take(i as int));
            assert(s.last() == lines@[i as int]@);
        }
        match parse_export(lines[i].as_str()) {
            Some(kv) => {
                let ghost before = r@;
                r.push(kv);
                assert(pairs_of(r@) =~= pairs_of(before).push((kv.0@, kv.1@)));
            },
            None => {},
        }
        i = i + 1;
    }
    assert(strs_of(lines@).take(lines@.len() as int) =~= strs_of(lines@));
    r
}

/// The home that a switch to `kind` at `path` sets in the running
/// process, if its first line reads as one.
pub open spec fn plan_home(kind: RuntimeKind, path: Seq<char>) -> Option<Seq<char>> {
    match parse_export_spec(home_line(kind, path)) {
        Some(kv) => Some(kv.1),
        None => None,
    }
}

/// The content of `~/.zshrc`, empty when there is none.
pub open spec fn content_of(existing: Option<&str>) -> Seq<char> {
    match existing {
        Some(e) => e@,
        None => seq![],
    }
}

/// What the caller does to make `version` the default on `platform`:
/// `path_is_dir` tells whether its home exists, `config_file` is the path
/// of `~/.zshrc` and `existing` its content when it exists.  The present
/// file is backed up first; only the home variable is set in the running
/// process (its `PATH` keeps its entries, with the `bin` directory put in
/// front).
pub fn activate(
    version: &RuntimeVersion,
    platform: Platform,
    path_is_dir: bool,
    config_file: &str,
    existing: Option<&str>,
) -> (r: Result<ActivationPlan, String>)
    ensures
        !path_is_dir ==> (r matches Err(e) && e@ == missing_path_message(version.path@)),
        path_is_dir && platform == Platform::Linux ==> (r matches Err(e) && e@ == unsupported_message()),
        path_is_dir && platform == Platform::MacOs ==> match upsert_spec(
            content_of(existing),
            shell_lines_spec(version.kind, version.path@),
            version.kind,
        ) {
            None => r matches Err(e) && e@ == missing_end_message(),
            Some(c) => r matches Ok(ActivationPlan::WriteZshrc { content, env, home, backup }) && content@ == c
                && (match existing {
                Some(_) => backup matches Some(b) && b@ == backup_spec(config_file@),
                None => backup is None,
            }) && pairs_of(env@) == exports_of(seq![home_line(version.kind, version.path@)]) && match plan_home(
                version.kind,
                version.path@,
            ) {
                Some(h) => home matches Some(x) && x@ == h,
                None => home is None,
            },
        },
        path_is_dir && platform == Platform::Windows ==> (r matches Ok(ActivationPlan::RunPowerShell { script })
            && script@ == windows_script_spec(env_var_of(version.kind), ps_escaped(version.path@))),
{
    validate(version, path_is_dir)?;
    match platform {
        Platform::MacOs => {
            let lines = shell_lines(version);
            let text = match existing {
                Some(e) => e,
                None => "",
            };
            proof {
                if existing is None {
                    reveal_strlit("");
                }
            }
            assert(text@ == content_of(existing));
            let content = upsert_managed_block(text, &lines, version.kind)?;
            assert(lines@[0]@ == home_line(version.kind, version.path@));
            let mut first: Vec<String> = Vec::new();
            first.push(owned(lines[0].as_str()));
            assert(strs_of(first@) =~= seq![home_line(version.kind, version.path@)]);
            let env = exports(&first);
            let home = match parse_export(lines[0].as_str()) {
                Some(kv) => Some(kv.1),
                None => None,
            };
            let backup = match existing {
                Some(_) => Some(backup_path(config_file)),
                None => None,
            };
            Ok(ActivationPlan::WriteZshrc { content, env, home, backup })
        },
        Platform::Windows => Ok(ActivationPlan::RunPowerShell { script: windows_script(version) }),
        Platform::Linux => Err(owned("当前平台暂不支持切换默认版本（支持 macOS / Windows）")),
    }
}

// ---------------------------------------------------------------------------
// What the written lines read back as
// ---------------------------------------------------------------------------

/// A path that an activation writes so that it reads back unchanged: not
/// empty, without line feeds, and without a quote at either end.
pub open spec fn path_reads_back(path: Seq<char>) -> bool {
    &&& path.len() > 0
    &&& !path.contains('\n')
    &&& path[0] != '"'
    &&& path[0] != '\''
    &&& path.last() != '"'
    &&& path.last() != '\''
}

/// The home variables are short upper-case names.
proof fn lemma_env_var_shape(kind: RuntimeKind)
    ensures
        env_var_of(kind).len() > 0,
        forall|i: int| 0 <= i < env_var_of(kind).len() ==> {
            let c = #[trigger] env_var_of(kind)[i];
            c != '=' && !is_ws(c) && c != '\n' && c != '#' && c != '"' && c != '/'
        },
        is_home_var(env_var_of(kind)),
        env_var_of(kind) != "PATH"@,
{
    reveal_strlit("JAVA_HOME");
    reveal_strlit("NODE_HOME");
    reveal_strlit("GOROOT");
    reveal_strlit("MAVEN_HOME");
    reveal_strlit("PYTHON_HOME");
    reveal_strlit("RUST_HOME");
    reveal_strlit("PATH");
    let v = env_var_of(kind);
    assert forall|i: int| 0 <= i < v.len() implies {
        let c = #[trigger] v[i];
        c != '=' && !is_ws(c) && c != '\n' && c != '#' && c != '"' && c != '/'
    } by {
        match kind {
            RuntimeKind::Java => {},
            RuntimeKind::Node => {},
            RuntimeKind::Go => {},
            RuntimeKind::Maven => {},
            RuntimeKind::Python => {},
            RuntimeKind::Rust => {},
        }
    }
    assert(v.len() != 4) by {
        match kind {
            RuntimeKind::Java => {},
            RuntimeKind::Node => {},
            RuntimeKind::Go => {},
            RuntimeKind::Maven => {},
            RuntimeKind::Python => {},
            RuntimeKind::Rust => {},
        }
    }
}

/// The markers open with `#`, then a space, then `>` or `<`.
proof fn lemma_marker_shape()
    ensures
        block_start().len() > 2,
        block_end().len() > 2,
        block_start()[0] == '#',
        block_end()[0] == '#',
        block_start()[2] == '>',
        block_end()[2] == '<',
        !is_ws(block_start()[0]),
        !is_ws(block_start().last()),
        !is_ws(block_end().last()),
        block_start().last() != '\r',
        block_end().last() != '\r',
        !block_start().contains('\n'),
        !block_end().contains('\n'),
{
    reveal_strlit("# >>> NovaEnv managed >>>");
    reveal_strlit("# <<< NovaEnv managed <<<");
    let a = block_start();
    let b = block_end();
    if a.contains('\n') {
        let j = choose|j: int| 0 <= j < a.len() && a[j] == '\n';
        assert(a[j] != '\n');
    }
    if b.contains('\n') {
        let j = choose|j: int| 0 <= j < b.len() && b[j] == '\n';
        assert(b[j] != '\n');
    }
}

/// A line that starts with a letter starts with neither marker.
proof fn lemma_not_marker(t: Seq<char>)
    requires
        t.len() > 0,
        t[0] != '#',
    ensures
        !starts_with(t, block_start()),
        !starts_with(t, block_end()),
{
    lemma_marker_shape();
    if starts_with(t, block_start()) {
        assert(t.take(block_start().len() as int)[0] == t[0]);
    }
    if starts_with(t, block_end()) {
        assert(t.take(block_end().len() as int)[0] == t[0]);
    }
}

/// The home line sets `path`.
#[verifier::rlimit(50)]
#[verifier::spinoff_prover]
pub proof fn lemma_home_line_reads_back(kind: RuntimeKind, path: Seq<char>)
    requires
        path_reads_back(path),
    ensures
        trim(home_line(kind, path)) == home_line(kind, path),
        export_value(home_line(kind, path)) == seq![path],
        !starts_with(home_line(kind, path), block_start()),
        !starts_with(home_line(kind, path), block_end()),
        !home_line(kind, path).contains('\n'),
        home_line(kind, path).last() != '\r',
        home_line(kind, path).len() > 0,
{
    reveal_strlit("export ");
    reveal_strlit("=\"");
    reveal_strlit("\"");
    lemma_env_var_shape(kind);
    let v = env_var_of(kind);
    let e = "export "@;
    let h = home_line(kind, path);
    let rest = v + "=\""@ + path + "\""@;
    assert(h =~= e + rest);
    assert(h[0] == 'e');
    assert(h.last() == '"');
    lemma_trim_exact(h);
    lemma_not_marker(h);
    assert(h.take(e.len() as int) =~= e);
    assert(h.skip(e.len() as int) =~= rest);
    assert(strip_prefix(h, e) == Some(rest));
    assert forall|j: int| 0 <= j < v.len() implies rest[j] != '=' by {
        assert(rest[j] == v[j]);
    }
    assert(rest[v.len() as int] == '=');
    lemma_find_char_at(rest, '=', v.len() as int);
    let k = rest.take(v.len() as int);
    let val = rest.skip(v.len() as int + 1);
    assert(k =~= v);
    assert(val =~= seq!['"'] + path + seq!['"']);
    lemma_trim_exact(v);
    lemma_trim_exact(val);
    // The double quotes come off, and nothing more.
    assert(strip_start_all(val, '"') == strip_start_all(val.drop_first(), '"'));
    assert(val.drop_first() =~= path + seq!['"']);
    assert((path + seq!['"'])[0] == path[0]);
    assert(strip_start_all(path + seq!['"'], '"') == path + seq!['"']);
    assert((path + seq!['"']).drop_last() =~= path);
    assert(strip_end_all(path + seq!['"'], '"') == strip_end_all(path, '"'));
    assert(strip_end_all(path, '"') == path);
    assert(trim_matches(val, '"') == path);
    assert(strip_start_all(path, '\'') == path);
    assert(strip_end_all(path, '\'') == path);
    assert(trim_matches(path, '\'') == path);
    if h.contains('\n') {
        let j = choose|j: int| 0 <= j < h.len() && h[j] == '\n';
        if j >= e.len() + v.len() + 2 && j < e.len() + v.len() + 2 + path.len() {
            assert(h[j] == path[j - e.len() - v.len() - 2]);
        } else if j >= e.len() && j < e.len() + v.len() {
            assert(h[j] == v[j - e.len()]);
        }
    }
}

/// The `PATH` line sets no home.
#[verifier::rlimit(50)]
#[verifier::spinoff_prover]
pub proof fn lemma_path_line_reads_nothing(kind: RuntimeKind)
    ensures
        trim(path_line(kind)) == path_line(kind),
        export_value(path_line(kind)) == Seq::<Seq<char>>::empty(),
        !starts_with(path_line(kind), block_start()),
        !starts_with(path_line(kind), block_end()),
        !path_line(kind).contains('\n'),
        path_line(kind).last() != '\r',
        path_line(kind).len() > 0,
{
    reveal_strlit("export ");
    reveal_strlit("export PATH=\"$");
    reveal_strlit("/bin:$PATH\"");
    reveal_strlit("PATH");
    lemma_env_var_shape(kind);
    let v = env_var_of(kind);
    let e = "export "@;
    let a = "export PATH=\"$"@;
    let b = "/bin:$PATH\""@;
    let h = path_line(kind);
    assert(h[0] == 'e');
    assert(h.last() == '"');
    lemma_trim_exact(h);
    lemma_not_marker(h);
    assert(h.take(e.len() as int) =~= e);
    let rest = h.skip(e.len() as int);
    assert(strip_prefix(h, e) == Some(rest));
    assert(rest[4] == '=');
    assert forall|j: int| 0 <= j < 4 implies rest[j] != '=' by {}
    lemma_find_char_at(rest, '=', 4);
    let k = rest.take(4);
    assert(k =~= "PATH"@);
    lemma_trim_exact(k);
    assert(!is_home_var(k)) by {
        reveal_strlit("JAVA_HOME");
        reveal_strlit("NODE_HOME");
        reveal_strlit("GOROOT");
        reveal_strlit("MAVEN_HOME");
        reveal_strlit("PYTHON_HOME");
        reveal_strlit("RUST_HOME");
    }
    if h.contains('\n') {
        let j = choose|j: int| 0 <= j < h.len() && h[j] == '\n';
        if j >= a.len() && j < a.len() + v.len() {
            assert(h[j] == v[j - a.len()]);
        }
    }
}

/// What the kept lines are: non-empty trims, without line feeds, of lines
/// that are pieces of `x`.
proof fn lemma_kept_lines(ls: Seq<Seq<char>>, hp: Seq<char>, pp: Seq<char>, x: Seq<char>)
    requires
        forall|j: int| 0 <= j < ls.len() ==> is_piece(#[trigger] ls[j], x) && !ls[j].contains('\n'),
    ensures
        forall|k: int| 0 <= k < kept_lines(ls, hp, pp).len() ==> {
            let t = #[trigger] kept_lines(ls, hp, pp)[k];
            &&& is_piece(t, x)
            &&& t.len() > 0
            &&& trim(t) == t
            &&& !t.contains('\n')
        },
    decreases ls.len(),
{
    if ls.len() > 0 {
        let d = ls.drop_last();
        assert forall|j: int| 0 <= j < d.len() implies is_piece(#[trigger] d[j], x) && !d[j].contains('\n') by {
            assert(d[j] == ls[j]);
        }
        lemma_kept_lines(d, hp, pp, x);
        let k = kept_lines(d, hp, pp);
        let l = ls.last();
        let t = trim(l);
        assert(l == ls[ls.len() - 1]);
        lemma_trim_piece(l);
        lemma_piece_trans(t, l, x);
        lemma_trim_idem(l);
        if t.contains('\n') {
            let a = choose|a: int| 0 <= a && a + t.len() <= l.len() && #[trigger] l.subrange(a, a + t.len()) == t;
            let j = choose|j: int| 0 <= j < t.len() && t[j] == '\n';
            assert(l.subrange(a, a + t.len())[j] == l[a + j]);
            assert(l[a + j] == t[j]);
        }
        if !(t.len() == 0 || starts_with(t, hp) || starts_with(t, pp)) {
            assert(kept_lines(ls, hp, pp) == k.push(t));
            assert forall|i: int| 0 <= i < k.push(t).len() implies {
                let u = #[trigger] k.push(t)[i];
                &&& is_piece(u, x)
                &&& u.len() > 0
                &&& trim(u) == u
                &&& !u.contains('\n')
            } by {
                if i < k.len() {
                    assert(k.push(t)[i] == k[i]);
                } else {
                    assert(k.push(t)[i] == t);
                }
            }
        } else {
            assert(kept_lines(ls, hp, pp) == k);
        }
    }
}

/// The text before the managed block (with a line feed added when there
/// is no block).
pub open spec fn before_block(existing: Seq<char>) -> Seq<char> {
    match find_sub(existing, block_start()) {
        None => existing + seq!['\n'],
        Some(st) => existing.take(st),
    }
}

/// The managed block of `existing` can be read back: no line before it
/// starts (once trimmed) with the closing marker, and when there is a
/// block, only white space precedes its opening marker on its line and a
/// closing marker follows it.
pub open spec fn markers_well_placed(existing: Seq<char>) -> bool {
    &&& forall|k: int| 0 <= k < lines(before_block(existing)).len() ==> !starts_with(
        trim(#[trigger] lines(before_block(existing))[k]),
        block_end(),
    )
    &&& find_sub(existing, block_start()) matches Some(st) ==> {
        &&& all_ws(split(existing.take(st), '\n').last())
        &&& find_sub(existing.skip(st), block_end()) is Some
    }
}

/// The block text splits into its lines.
proof fn lemma_block_lines(pre: Seq<char>, ls: Seq<Seq<char>>, post: Seq<char>)
    requires
        ls.len() >= 1,
        forall|k: int| 0 <= k < ls.len() ==> !(#[trigger] ls[k]).contains('\n') && ls[k].len() > 0
            && ls[k].last() != '\r',
        !pre.contains('\n'),
    ensures
        lines(pre + block_text(ls) + post) == seq![pre + block_start()] + ls + seq![block_end()] + lines(post),
{
    lemma_marker_shape();
    let first = pre + block_start();
    let j = join(ls, '\n');
    let tail = block_end() + seq!['\n'] + post;
    assert(pre + block_text(ls) + post =~= first + seq!['\n'] + (j + seq!['\n'] + tail));
    if first.contains('\n') {
        let x = choose|x: int| 0 <= x < first.len() && first[x] == '\n';
        if x < pre.len() {
            assert(pre[x] == first[x]);
        } else {
            assert(block_start()[x - pre.len()] == first[x]);
        }
    }
    lemma_lines_first(first, j + seq!['\n'] + tail);
    assert(strip_cr(first) == first) by {
        assert(first.last() == block_start().last());
    }
    lemma_lines_concat(j, tail);
    lemma_split_join(ls, '\n');
    assert(strip_all(split(j, '\n')) =~= ls);
    lemma_lines_first(block_end(), post);
    assert(strip_cr(block_end()) == block_end());
    assert(lines(pre + block_text(ls) + post) =~= seq![first] + ls + seq![block_end()] + lines(post));
}

/// The home line is a single trimmed line that opens with `export` and the
/// home prefix of its runtime, whatever the path (without line feeds).
proof fn lemma_home_line_shape(kind: RuntimeKind, path: Seq<char>)
    requires
        !path.contains('\n'),
    ensures
        trim(home_line(kind, path)) == home_line(kind, path),
        !starts_with(home_line(kind, path), block_start()),
        !starts_with(home_line(kind, path), block_end()),
        !home_line(kind, path).contains('\n'),
        home_line(kind, path).last() != '\r',
        home_line(kind, path).len() > 0,
        starts_with(home_line(kind, path), home_prefix(kind)),
{
    reveal_strlit("export ");
    reveal_strlit("=\"");
    reveal_strlit("=");
    reveal_strlit("\"");
    lemma_env_var_shape(kind);
    let v = env_var_of(kind);
    let e = "export "@;
    let h = home_line(kind, path);
    let hp = home_prefix(kind);
    assert(h[0] == 'e');
    assert(h.last() == '"');
    lemma_trim_exact(h);
    lemma_not_marker(h);
    assert(h =~= hp + (seq!['"'] + path + seq!['"']));
    assert(h.take(hp.len() as int) =~= hp);
    if h.contains('\n') {
        let j = choose|j: int| 0 <= j < h.len() && h[j] == '\n';
        if j >= e.len() + v.len() + 2 && j < e.len() + v.len() + 2 + path.len() {
            assert(h[j] == path[j - e.len() - v.len() - 2]);
        } else if j >= e.len() && j < e.len() + v.len() {
            assert(h[j] == v[j - e.len()]);
        }
    }
}

/// The shell lines are two single, non-empty lines that do not close the
/// block.
proof fn lemma_shell_lines_shape(kind: RuntimeKind, path: Seq<char>)
    requires
        !path.contains('\n'),
    ensures
        shell_lines_spec(kind, path).len() == 2,
        forall|k: int| 0 <= k < shell_lines_spec(kind, path).len() ==> {
            let l = #[trigger] shell_lines_spec(kind, path)[k];
            &&& !l.contains('\n')
            &&& l.len() > 0
            &&& l.last() != '\r'
            &&& !starts_with(trim(l), block_end())
        },
{
    lemma_home_line_shape(kind, path);
    lemma_path_line_reads_nothing(kind);
    let nl = shell_lines_spec(kind, path);
    assert forall|k: int| 0 <= k < nl.len() implies {
        let l = #[trigger] nl[k];
        &&& !l.contains('\n')
        &&& l.len() > 0
        &&& l.last() != '\r'
        &&& !starts_with(trim(l), block_end())
    } by {
        if k == 0 {
            assert(nl[k] == home_line(kind, path));
        } else {
            assert(nl[k] == path_line(kind));
        }
    }
}

/// Inside the block, the shell lines followed by the closing marker read
/// back as `path`.
proof fn lemma_shell_lines_paths(kind: RuntimeKind, path: Seq<char>, post: Seq<char>)
    requires
        path_reads_back(path),
    ensures
        block_paths(shell_lines_spec(kind, path) + (seq![block_end()] + lines(post)), true) == seq![path],
        block_paths(shell_lines_spec(kind, path), true) == seq![path],
{
    lemma_marker_shape();
    lemma_shell_lines_shape(kind, path);
    lemma_home_line_reads_back(kind, path);
    lemma_path_line_reads_nothing(kind);
    let nl = shell_lines_spec(kind, path);
    let h = home_line(kind, path);
    let pl = path_line(kind);
    let tail = seq![block_end()] + lines(post);
    lemma_block_paths_inside(nl, tail);
    assert(trim(block_end()) == block_end()) by {
        lemma_trim_exact(block_end());
    }
    assert(starts_with(block_end(), block_end())) by {
        assert(block_end().take(block_end().len() as int) =~= block_end());
    }
    assert(!starts_with(block_end(), block_start())) by {
        if starts_with(block_end(), block_start()) {
            assert(block_end().take(block_start().len() as int)[2] == block_end()[2]);
        }
    }
    assert(tail[0] == block_end());
    assert(block_paths(tail, true) == Seq::<Seq<char>>::empty());
    let one = seq![pl];
    assert(one[0] == pl);
    assert(one.drop_first() =~= Seq::<Seq<char>>::empty());
    assert(block_paths(Seq::<Seq<char>>::empty(), true) == Seq::<Seq<char>>::empty());
    assert(block_paths(one, true) == export_value(pl) + block_paths(one.drop_first(), true));
    assert(block_paths(one, true) =~= Seq::<Seq<char>>::empty());
    assert(nl[0] == h);
    assert(nl.drop_first() =~= one);
    assert(block_paths(nl, true) == export_value(h) + block_paths(one, true));
    assert(block_paths(nl, true) =~= seq![path]);
    assert(block_paths(nl, true) + block_paths(tail, true) =~= seq![path]);
}

/// Without a block, a block of the lines `ls` appended to the file
/// activates what those lines set inside a block.
#[verifier::rlimit(80)]
#[verifier::spinoff_prover]
proof fn lemma_reads_back_lines(existing: Seq<char>, ls: Seq<Seq<char>>, paths: Seq<Seq<char>>)
    requires
        markers_well_placed(existing),
        find_sub(existing, block_start()) is None,
        ls.len() >= 1,
        forall|k: int| 0 <= k < ls.len() ==> {
            let l = #[trigger] ls[k];
            &&& !l.contains('\n')
            &&& l.len() > 0
            &&& l.last() != '\r'
            &&& !starts_with(trim(l), block_end())
        },
        block_paths(ls + (seq![block_end()] + lines(Seq::<char>::empty())), true) == paths,
    ensures
        active_paths(existing + seq!['\n'] + block_text(ls)) == paths,
{
    lemma_marker_shape();
    lemma_find_sub(existing, block_start());
    let nl = ls;
    let r = existing + seq!['\n'] + block_text(nl);
    lemma_block_lines(seq![], nl, seq![]);
    assert(Seq::<char>::empty() + block_text(nl) + Seq::<char>::empty() =~= block_text(nl));
    assert(Seq::<char>::empty() + block_start() =~= block_start());
    lemma_lines_concat(existing, block_text(nl));
    lemma_lines_terminated(existing);
    let pre = lines(existing + seq!['\n']);
    let after = seq![block_start()] + nl + seq![block_end()] + lines(Seq::<char>::empty());
    assert(lines(r) =~= pre + after);
    assert(before_block(existing) == existing + seq!['\n']);
    // No line before the block opens or closes one.
    lemma_lines_are_pieces(existing + seq!['\n']);
    assert forall|k: int| 0 <= k < pre.len() implies !starts_with(trim(#[trigger] pre[k]), block_start())
        && !starts_with(trim(pre[k]), block_end()) by {
        assert forall|j: int| !occurs_at(existing + seq!['\n'], block_start(), j) by {
            if occurs_at(existing + seq!['\n'], block_start(), j) {
                let w = (existing + seq!['\n']).subrange(j, j + block_start().len());
                if j + block_start().len() <= existing.len() {
                    assert(existing.subrange(j, j + block_start().len()) =~= w);
                    assert(occurs_at(existing, block_start(), j));
                } else {
                    assert(w[w.len() - 1] == '\n');
                    assert(w.last() == block_start().last());
                }
            }
        }
        lemma_no_marker_start(pre[k], existing + seq!['\n'], block_start());
    }
    lemma_block_paths_outside(pre, after);
    assert(after[0] == block_start());
    assert(trim(block_start()) == block_start()) by {
        lemma_trim_exact(block_start());
    }
    assert(starts_with(block_start(), block_start())) by {
        assert(block_start().take(block_start().len() as int) =~= block_start());
    }
    assert(after.drop_first() =~= nl + (seq![block_end()] + lines(Seq::<char>::empty())));
    assert(block_paths(after, false) == paths);
}

/// Without a block, the written file activates exactly `path`.
proof fn lemma_reads_back_new(existing: Seq<char>, kind: RuntimeKind, path: Seq<char>)
    requires
        path_reads_back(path),
        markers_well_placed(existing),
        find_sub(existing, block_start()) is None,
    ensures
        upsert_spec(existing, shell_lines_spec(kind, path), kind) == Some(
            existing + seq!['\n'] + block_text(shell_lines_spec(kind, path)),
        ),
        active_paths(existing + seq!['\n'] + block_text(shell_lines_spec(kind, path))) == seq![path],
{
    lemma_shell_lines_shape(kind, path);
    lemma_shell_lines_paths(kind, path, Seq::<char>::empty());
    lemma_find_sub(existing, block_start());
    lemma_reads_back_lines(existing, shell_lines_spec(kind, path), seq![path]);
}

/// With a block, the written file activates the kept homes of the block,
/// then `path`.
#[verifier::rlimit(80)]
#[verifier::spinoff_prover]
proof fn lemma_reads_back_existing(existing: Seq<char>, kind: RuntimeKind, path: Seq<char>) -> (kept: Seq<
    Seq<char>,
>)
    requires
        path_reads_back(path),
        markers_well_placed(existing),
        find_sub(existing, block_start()) is Some,
    ensures
        upsert_spec(existing, shell_lines_spec(kind, path), kind) is Some,
        active_paths(upsert_spec(existing, shell_lines_spec(kind, path), kind)->0) == kept + seq![path],
        kept == block_paths(kept_lines(lines(block_body(existing)), home_prefix(kind), path_prefix(kind)), true),
        forall|j: int| 0 <= j < kept_lines(lines(block_body(existing)), home_prefix(kind), path_prefix(kind)).len()
            ==> !starts_with(
            trim(#[trigger] kept_lines(lines(block_body(existing)), home_prefix(kind), path_prefix(kind))[j]),
            block_end(),
        ),
{
    lemma_marker_shape();
    lemma_shell_lines_shape(kind, path);
    lemma_find_sub(existing, block_start());
    let nl = shell_lines_spec(kind, path);
    let st = find_sub(existing, block_start())->0;
    let rest = existing.skip(st);
    lemma_find_sub(rest, block_end());
    let off = find_sub(rest, block_end())->0;
    if off < block_start().len() {
        assert(rest.take(block_start().len() as int) =~= existing.subrange(st, st + block_start().len()));
        lemma_end_after_start(rest, off);
    }
    let end = st + off + block_end().len();
    let body = existing.subrange(st + block_start().len(), st + off);
    let kept = kept_lines(lines(body), home_prefix(kind), path_prefix(kind));
    let all = kept + nl;
    let p = existing.take(st);
    let post = after_end(existing.skip(end));
    let r = p + block_text(all) + post;
    assert(upsert_spec(existing, nl, kind) == Some(r));
    // The kept lines are trimmed pieces of the body.
    lemma_lines_are_pieces(body);
    lemma_kept_lines(lines(body), home_prefix(kind), path_prefix(kind), body);
    assert forall|k: int| 0 <= k < all.len() implies !(#[trigger] all[k]).contains('\n') && all[k].len() > 0
        && all[k].last() != '\r' && !starts_with(trim(all[k]), block_end()) by {
        if k < kept.len() {
            let t = kept[k];
            assert(all[k] == t);
            assert(t.last() != '\r') by {
                lemma_trim_end_last(t);
            }
            if starts_with(t, block_end()) {
                let at = lemma_piece_marker(t, body, block_end());
                assert(rest.subrange(block_start().len() + at, block_start().len() + at + block_end().len())
                    =~= body.subrange(at, at + block_end().len()));
                assert(occurs_at(rest, block_end(), block_start().len() + at));
            }
        } else {
            assert(all[k] == nl[k - kept.len()]);
        }
    }
    // The lines of the result.
    lemma_split_nonempty(p, '\n');
    let d = split(p, '\n').drop_last();
    let l = split(p, '\n').last();
    lemma_lines_prefix(p, block_text(all) + post);
    assert(p + (block_text(all) + post) =~= r);
    lemma_split_pieces(p, '\n');
    assert(!l.contains('\n')) by {
        assert(l == split(p, '\n')[split(p, '\n').len() - 1]);
    }
    lemma_block_lines(l, all, post);
    assert(l + block_text(all) + post =~= l + (block_text(all) + post));
    let pre = strip_all(d);
    let after = seq![l + block_start()] + all + seq![block_end()] + lines(post);
    assert(lines(r) =~= pre + after);
    // The lines before the block open or close none.
    lemma_lines_prefix_empty(p);
    assert(before_block(existing) == p);
    assert forall|k: int| 0 <= k < pre.len() implies !starts_with(trim(#[trigger] pre[k]), block_start())
        && !starts_with(trim(pre[k]), block_end()) by {
        assert(pre[k] == lines(p)[k]);
        lemma_lines_are_pieces(p);
        assert forall|j: int| !occurs_at(p, block_start(), j) by {
            if occurs_at(p, block_start(), j) {
                assert(existing.subrange(j, j + block_start().len()) =~= p.subrange(j, j + block_start().len()));
                assert(occurs_at(existing, block_start(), j));
            }
        }
        lemma_no_marker_start(pre[k], p, block_start());
    }
    lemma_block_paths_outside(pre, after);
    assert(trim(l + block_start()) == block_start()) by {
        lemma_trim_ws_prefix(l, block_start());
        lemma_trim_exact(block_start());
    }
    assert(starts_with(block_start(), block_start())) by {
        assert(block_start().take(block_start().len() as int) =~= block_start());
    }
    assert(after[0] == l + block_start());
    let inner = all + (seq![block_end()] + lines(post));
    assert(after.drop_first() =~= inner);
    assert(block_paths(after, false) == block_paths(inner, true));
    assert forall|k: int| 0 <= k < kept.len() implies !starts_with(trim(#[trigger] kept[k]), block_end()) by {
        assert(kept[k] == all[k]);
    }
    assert(body == block_body(existing));
    lemma_block_paths_inside(kept, nl + (seq![block_end()] + lines(post)));
    assert(inner =~= kept + (nl + (seq![block_end()] + lines(post))));
    lemma_shell_lines_paths(kind, path, post);
    assert(block_paths(inner, true) == block_paths(kept, true) + seq![path]);
    block_paths(kept, true)
}

/// After an activation of `path` for `kind`, reading the managed block of
/// the written `~/.zshrc` gives `path` as the last active home, and, when
/// the file had no block, as the only one: what a switch writes is what
/// the scan reads back.
pub proof fn law_activation_reads_back(existing: Seq<char>, kind: RuntimeKind, path: Seq<char>)
    requires
        path_reads_back(path),
        markers_well_placed(existing),
    ensures
        upsert_spec(existing, shell_lines_spec(kind, path), kind) is Some,
        active_paths(upsert_spec(existing, shell_lines_spec(kind, path), kind)->0).len() > 0,
        active_paths(upsert_spec(existing, shell_lines_spec(kind, path), kind)->0).last() == path,
        find_sub(existing, block_start()) is None ==> active_paths(
            upsert_spec(existing, shell_lines_spec(kind, path), kind)->0,
        ) == seq![path],
{
    if find_sub(existing, block_start()) is None {
        lemma_reads_back_new(existing, kind, path);
    } else {
        let kept = lemma_reads_back_existing(existing, kind, path);
        assert((kept + seq![path]).last() == path);
    }
}

// ---------------------------------------------------------------------------
// A switch keeps the homes of the other runtimes
// ---------------------------------------------------------------------------

/// The variable an `export VAR=...` line names, trimmed, if it is one.
pub open spec fn export_var(t: Seq<char>) -> Option<Seq<char>> {
    match strip_prefix(t, "export "@) {
        None => None,
        Some(rest) => match split_once(rest, '=') {
            None => None,
            Some(kv) => Some(trim(kv.0)),
        },
    }
}

/// The text between the markers of the managed block of `existing`.
pub open spec fn block_body(existing: Seq<char>) -> Seq<char> {
    let st = find_sub(existing, block_start())->0;
    let off = find_sub(existing.skip(st), block_end())->0;
    existing.subrange(st + block_start().len(), st + off)
}

/// A line of the managed block of `existing` sets the home `x` of a
/// runtime other than `kind`.
pub open spec fn other_home(existing: Seq<char>, kind: RuntimeKind, x: Seq<char>) -> bool {
    exists|k: int|
        0 <= k < lines(block_body(existing)).len() && export_value(trim(#[trigger] lines(block_body(existing))[k]))
            == seq![x] && export_var(trim(lines(block_body(existing))[k])) != Some(env_var_of(kind))
}

/// A line that starts with `export VAR=` names `VAR`.
proof fn lemma_export_var_prefix(t: Seq<char>, v: Seq<char>)
    requires
        starts_with(t, "export "@ + v + "="@),
        forall|i: int| 0 <= i < v.len() ==> #[trigger] v[i] != '=',
        trim(v) == v,
    ensures
        export_var(t) == Some(v),
{
    reveal_strlit("export ");
    reveal_strlit("=");
    let e = "export "@;
    let p = e + v + "="@;
    assert(t.take(p.len() as int) == p);
    assert(t.take(e.len() as int) =~= e) by {
        assert forall|i: int| 0 <= i < e.len() implies t.take(e.len() as int)[i] == e[i] by {
            assert(t.take(p.len() as int)[i] == p[i]);
        }
    }
    let rest = t.skip(e.len() as int);
    assert(strip_prefix(t, e) == Some(rest));
    assert forall|j: int| 0 <= j < v.len() implies rest[j] != '=' by {
        assert(rest[j] == t[e.len() + j]);
        assert(t.take(p.len() as int)[e.len() + j] == p[e.len() + j]);
    }
    assert(rest[v.len() as int] == '=') by {
        assert(rest[v.len() as int] == t[(e.len() + v.len()) as int]);
        assert(t.take(p.len() as int)[(e.len() + v.len()) as int] == p[(e.len() + v.len()) as int]);
    }
    lemma_find_char_at(rest, '=', v.len() as int);
    assert(rest.take(v.len() as int) =~= v) by {
        assert forall|j: int| 0 <= j < v.len() implies rest.take(v.len() as int)[j] == v[j] by {
            assert(t.take(p.len() as int)[e.len() + j] == p[e.len() + j]);
        }
    }
}

/// Every kept line of another runtime's home contributes that home.
proof fn lemma_kept_paths(ls: Seq<Seq<char>>, kind: RuntimeKind, k: int, x: Seq<char>)
    requires
        0 <= k < ls.len(),
        export_value(trim(ls[k])) == seq![x],
        export_var(trim(ls[k])) != Some(env_var_of(kind)),
        forall|j: int| 0 <= j < kept_lines(ls, home_prefix(kind), path_prefix(kind)).len() ==> !starts_with(
            trim(#[trigger] kept_lines(ls, home_prefix(kind), path_prefix(kind))[j]),
            block_end(),
        ),
    ensures
        block_paths(kept_lines(ls, home_prefix(kind), path_prefix(kind)), true).contains(x),
    decreases ls.len(),
{
    reveal_strlit("export ");
    reveal_strlit("=");
    reveal_strlit("PATH");
    reveal_strlit("export PATH=\"$");
    reveal_strlit("/bin");
    let hp = home_prefix(kind);
    let pp = path_prefix(kind);
    let d = ls.drop_last();
    let kd = kept_lines(d, hp, pp);
    let t = trim(ls.last());
    let kept = kept_lines(ls, hp, pp);
    let keep = !(t.len() == 0 || starts_with(t, hp) || starts_with(t, pp));
    assert(kept == if keep {
        kd.push(t)
    } else {
        kd
    });
    assert forall|j: int| 0 <= j < kd.len() implies !starts_with(trim(#[trigger] kd[j]), block_end()) by {
        assert(kept[j] == kd[j]);
    }
    if k < ls.len() - 1 {
        assert(d[k] == ls[k]);
        lemma_kept_paths(d, kind, k, x);
        if keep {
            lemma_block_paths_inside(kd, seq![t]);
            assert(kd.push(t) =~= kd + seq![t]);
            let a = block_paths(kd, true);
            let w = choose|w: int| 0 <= w < a.len() && a[w] == x;
            assert((a + block_paths(seq![t], true))[w] == x);
        }
    } else {
        assert(ls[k] == ls.last());
        lemma_env_var_shape(kind);
        let v = env_var_of(kind);
        lemma_trim_exact(v);
        // The line is kept: it is not the home line nor the PATH line of `kind`.
        assert(trim(ls[k]) == t);
        assert(export_value(t).len() == 1);
        assert(strip_prefix(t, "export "@) is Some) by {
            if strip_prefix(t, "export "@) is None {
                assert(export_value(t).len() == 0);
            }
        }
        assert(t.len() > 0);
        if starts_with(t, hp) {
            assert(hp == "export "@ + v + "="@);
            lemma_export_var_prefix(t, v);
        }
        if starts_with(t, pp) {
            let pv = "PATH"@;
            assert(starts_with(t, "export "@ + pv + "="@)) by {
                let q = "export "@ + pv + "="@;
                assert(pp.take(q.len() as int) =~= q);
                assert(t.take(pp.len() as int) == pp);
                assert(t.take(q.len() as int) =~= q) by {
                    assert forall|i: int| 0 <= i < q.len() implies t.take(q.len() as int)[i] == q[i] by {
                        assert(t.take(pp.len() as int)[i] == pp[i]);
                        assert(pp.take(q.len() as int)[i] == pp[i]);
                    }
                }
            }
            lemma_trim_exact(pv);
            lemma_export_var_prefix(t, pv);
            assert(!is_home_var(pv)) by {
                reveal_strlit("JAVA_HOME");
                reveal_strlit("NODE_HOME");
                reveal_strlit("GOROOT");
                reveal_strlit("MAVEN_HOME");
                reveal_strlit("PYTHON_HOME");
                reveal_strlit("RUST_HOME");
            }
        }
        assert(keep);
        lemma_block_paths_inside(kd, seq![t]);
        assert(kd.push(t) =~= kd + seq![t]);
        lemma_trim_idem(ls.last());
        lemma_marker_shape();
        assert(t[0] == 'e') by {
            assert(strip_prefix(t, "export "@) is Some);
            assert(t.take(7)[0] == t[0]);
        }
        lemma_not_marker(t);
        let one = seq![t];
        assert(one[0] == t);
        assert(one.drop_first() =~= Seq::<Seq<char>>::empty());
        assert(block_paths(one, true) == export_value(t) + block_paths(one.drop_first(), true));
        assert(block_paths(one, true) =~= seq![x]);
        let a = block_paths(kd, true);
        assert((a + seq![x])[a.len() as int] == x);
    }
}

/// Switching `kind` keeps in effect every home that the managed block set
/// for another runtime: the defaults of different runtimes do not
/// overwrite one another.
pub proof fn law_switch_keeps_other_homes(existing: Seq<char>, kind: RuntimeKind, path: Seq<char>, x: Seq<char>)
    requires
        path_reads_back(path),
        markers_well_placed(existing),
        find_sub(existing, block_start()) is Some,
        other_home(existing, kind, x),
    ensures
        active_paths(upsert_spec(existing, shell_lines_spec(kind, path), kind)->0).contains(x),
{
    let kept = lemma_reads_back_existing(existing, kind, path);
    let ls = lines(block_body(existing));
    let k = choose|k: int|
        0 <= k < ls.len() && export_value(trim(#[trigger] ls[k])) == seq![x] && export_var(trim(ls[k])) != Some(
            env_var_of(kind),
        );
    lemma_kept_paths(ls, kind, k, x);
    let w = choose|w: int| 0 <= w < kept.len() && kept[w] == x;
    assert((kept + seq![path])[w] == x);
}

// ---------------------------------------------------------------------------
// Switching again to the same version changes nothing
// ---------------------------------------------------------------------------

/// The kept lines of two lists are those of each.
proof fn lemma_kept_concat(a: Seq<Seq<char>>, b: Seq<Seq<char>>, hp: Seq<char>, pp: Seq<char>)
    ensures
        kept_lines(a + b, hp, pp) == kept_lines(a, hp, pp) + kept_lines(b, hp, pp),
    decreases b.len(),
{
    if b.len() == 0 {
        assert(a + b =~= a);
        assert(kept_lines(a, hp, pp) + kept_lines(b, hp, pp) =~= kept_lines(a, hp, pp));
    } else {
        lemma_kept_concat(a, b.drop_last(), hp, pp);
        assert((a + b).drop_last() =~= a + b.drop_last());
        assert((a + b).last() == b.last());
        let t = trim(b.last());
        if t.len() == 0 || starts_with(t, hp) || starts_with(t, pp) {
        } else {
            assert(kept_lines(a, hp, pp) + kept_lines(b.drop_last(), hp, pp).push(t) =~= (kept_lines(a, hp, pp)
                + kept_lines(b.drop_last(), hp, pp)).push(t));
        }
    }
}

/// No kept line starts with either prefix.
proof fn lemma_kept_prefixes(ls: Seq<Seq<char>>, hp: Seq<char>, pp: Seq<char>)
    ensures
        forall|k: int| 0 <= k < kept_lines(ls, hp, pp).len() ==> {
            let t = #[trigger] kept_lines(ls, hp, pp)[k];
            !starts_with(t, hp) && !starts_with(t, pp)
        },
    decreases ls.len(),
{
    if ls.len() > 0 {
        lemma_kept_prefixes(ls.drop_last(), hp, pp);
        let k0 = kept_lines(ls.drop_last(), hp, pp);
        let t = trim(ls.last());
        if !(t.len() == 0 || starts_with(t, hp) || starts_with(t, pp)) {
            assert forall|k: int| 0 <= k < k0.push(t).len() implies {
                let u = #[trigger] k0.push(t)[k];
                !starts_with(u, hp) && !starts_with(u, pp)
            } by {
                if k < k0.len() {
                    assert(k0.push(t)[k] == k0[k]);
                }
            }
        }
    }
}

/// Lines that would all be kept are kept as they are.
proof fn lemma_kept_fixed(ls: Seq<Seq<char>>, hp: Seq<char>, pp: Seq<char>)
    requires
        forall|k: int| 0 <= k < ls.len() ==> {
            let t = #[trigger] ls[k];
            &&& trim(t) == t
            &&& t.len() > 0
            &&& !starts_with(t, hp)
            &&& !starts_with(t, pp)
        },
    ensures
        kept_lines(ls, hp, pp) == ls,
    decreases ls.len(),
{
    if ls.len() > 0 {
        let d = ls.drop_last();
        assert forall|k: int| 0 <= k < d.len() implies {
            let t = #[trigger] d[k];
            &&& trim(t) == t
            &&& t.len() > 0
            &&& !starts_with(t, hp)
            &&& !starts_with(t, pp)
        } by {
            assert(d[k] == ls[k]);
        }
        lemma_kept_fixed(d, hp, pp);
        assert(ls.last() == ls[ls.len() - 1]);
        assert(d.push(ls.last()) =~= ls);
    }
}

/// The shell lines of a switch are never kept for their own runtime.
proof fn lemma_shell_lines_dropped(kind: RuntimeKind, path: Seq<char>)
    requires
        !path.contains('\n'),
    ensures
        kept_lines(shell_lines_spec(kind, path), home_prefix(kind), path_prefix(kind)) == Seq::<Seq<char>>::empty(),
{
    reveal_strlit("=\"");
    reveal_strlit("=");
    reveal_strlit("\"");
    reveal_strlit("/bin:$PATH\"");
    reveal_strlit("/bin");
    lemma_home_line_shape(kind, path);
    lemma_path_line_reads_nothing(kind);
    let h = home_line(kind, path);
    let pl = path_line(kind);
    let hp = home_prefix(kind);
    let pp = path_prefix(kind);
    assert(h =~= hp + (seq!['"'] + path + seq!['"']));
    assert(h.take(hp.len() as int) =~= hp);
    assert(pl =~= pp + ":$PATH\""@) by {
        reveal_strlit(":$PATH\"");
    }
    assert(pl.take(pp.len() as int) =~= pp);
    let nl = shell_lines_spec(kind, path);
    assert(nl.last() == pl);
    assert(nl.drop_last() =~= seq![h]);
    assert(seq![h].last() == h);
    assert(seq![h].drop_last() =~= Seq::<Seq<char>>::empty());
    assert(starts_with(h, hp));
    assert(starts_with(pl, pp));
    assert(trim(seq![h].last()) == h);
    assert(kept_lines(seq![h], hp, pp) == kept_lines(Seq::<Seq<char>>::empty(), hp, pp));
    assert(trim(nl.last()) == pl);
    assert(kept_lines(nl, hp, pp) == kept_lines(nl.drop_last(), hp, pp));
}

/// The closing marker starts with `#` and holds no double quote.
proof fn lemma_end_marker_chars()
    ensures
        block_end()[0] == '#',
        !block_end().contains('"'),
        !block_end().contains('\n'),
        block_end().len() > 0,
{
    reveal_strlit("# <<< NovaEnv managed <<<");
    let b = block_end();
    if b.contains('"') {
        let j = choose|j: int| 0 <= j < b.len() && b[j] == '"';
        assert(b[j] != '"');
    }
    lemma_marker_shape();
}

/// A marker without line feeds that occurs in none of the pieces does not
/// occur in their join.
proof fn lemma_join_no_marker(ls: Seq<Seq<char>>, m: Seq<char>)
    requires
        m.len() > 0,
        !m.contains('\n'),
        forall|k: int, j: int| 0 <= k < ls.len() ==> !(#[trigger] occurs_at(ls[k], m, j)),
    ensures
        forall|j: int| !occurs_at(join(ls, '\n'), m, j),
    decreases ls.len(),
{
    if ls.len() == 1 {
        assert forall|j: int| !occurs_at(join(ls, '\n'), m, j) by {
            assert(!occurs_at(ls[0], m, j));
        }
    } else if ls.len() > 1 {
        let d = ls.drop_last();
        assert forall|k: int, j: int| 0 <= k < d.len() implies !(#[trigger] occurs_at(d[k], m, j)) by {
            assert(d[k] == ls[k]);
        }
        lemma_join_no_marker(d, m);
        let a = join(d, '\n');
        let l = ls.last();
        let x = join(ls, '\n');
        assert(x == a + seq!['\n'] + l);
        assert forall|j: int| !occurs_at(x, m, j) by {
            if occurs_at(x, m, j) {
                if j + m.len() <= a.len() {
                    assert(a.subrange(j, j + m.len()) =~= x.subrange(j, j + m.len()));
                    assert(occurs_at(a, m, j));
                } else if j > a.len() {
                    assert(l.subrange(j - a.len() - 1, j - a.len() - 1 + m.len()) =~= x.subrange(j, j + m.len()));
                    assert(!occurs_at(ls[ls.len() - 1], m, j - a.len() - 1));
                } else {
                    assert(x.subrange(j, j + m.len())[a.len() - j] == x[a.len() as int]);
                    assert(m[a.len() - j] == '\n');
                }
            }
        }
    }
}

/// When `path` holds no closing marker, neither do the shell lines.
#[verifier::rlimit(50)]
proof fn lemma_shell_lines_no_end(kind: RuntimeKind, path: Seq<char>)
    requires
        forall|j: int| !occurs_at(path, block_end(), j),
    ensures
        forall|k: int, j: int| 0 <= k < shell_lines_spec(kind, path).len() ==> !(#[trigger] occurs_at(shell_lines_spec(kind, path)[k], block_end(), j)),
{
    reveal_strlit("export ");
    reveal_strlit("=\"");
    reveal_strlit("\"");
    reveal_strlit("export PATH=\"$");
    reveal_strlit("/bin:$PATH\"");
    lemma_env_var_shape(kind);
    lemma_end_marker_chars();
    let v = env_var_of(kind);
    let e = block_end();
    let a = "export "@ + v + "=\""@;
    let h = home_line(kind, path);
    assert(h =~= a + path + seq!['"']);
    let pl = path_line(kind);
    let nl = shell_lines_spec(kind, path);
    assert forall|k: int, j: int| 0 <= k < nl.len() implies !(#[trigger] occurs_at(nl[k], e, j)) by {
        if k == 0 {
            assert(nl[k] == h);
            if occurs_at(h, e, j) {
                assert(h.subrange(j, j + e.len())[0] == h[j]);
                assert(h[j] == '#');
                if j < 7 {
                    assert(h[j] == "export "@[j]);
                } else if j < 7 + v.len() {
                    assert(h[j] == v[j - 7]);
                } else if j < a.len() {
                    assert(h[j] == "=\""@[j - 7 - v.len()]);
                } else if j >= a.len() + path.len() {
                    assert(h[j] == '"');
                } else if j + e.len() <= a.len() + path.len() {
                    assert(path.subrange(j - a.len(), j - a.len() + e.len()) =~= h.subrange(j, j + e.len()));
                    assert(occurs_at(path, e, j - a.len()));
                } else {
                    let q: int = (a.len() + path.len()) as int;
                    assert(h[q] == '"');
                    assert(h.subrange(j, j + e.len())[q - j] == h[q]);
                    assert(e[q - j] == '"');
                }
            }
        } else {
            assert(nl[k] == pl);
            if occurs_at(pl, e, j) {
                assert(pl.subrange(j, j + e.len())[0] == pl[j]);
                assert(pl[j] == '#');
                let b = "export PATH=\"$"@;
                if j < b.len() {
                    assert(pl[j] == b[j]);
                } else if j < b.len() + v.len() {
                    assert(pl[j] == v[j - b.len()]);
                } else {
                    assert(pl[j] == "/bin:$PATH\""@[j - b.len() - v.len()]);
                }
            }
        }
    }
}



/// In a block followed by `post`, the first closing marker is the block's
/// own.
#[verifier::rlimit(60)]
#[verifier::spinoff_prover]
proof fn lemma_block_end_found(ls: Seq<Seq<char>>, post: Seq<char>)
    requires
        forall|k: int, j: int| 0 <= k < ls.len() ==> !(#[trigger] occurs_at(ls[k], block_end(), j)),
    ensures
        find_sub(block_text(ls) + post, block_end()) == Some(
            (block_start().len() + 1 + join(ls, '\n').len() + 1) as int,
        ),
{
    lemma_marker_shape();
    lemma_end_marker_chars();
    let sm = block_start();
    let em = block_end();
    let j0 = join(ls, '\n');
    let rest = block_text(ls) + post;
    assert(rest =~= sm + seq!['\n'] + j0 + seq!['\n'] + em + seq!['\n'] + post);
    let q: int = (sm.len() + 1 + j0.len() + 1) as int;
    assert(rest.subrange(q, q + em.len()) =~= em);
    if ls.len() > 0 {
        lemma_join_no_marker(ls, em);
    } else {
        assert(j0.len() == 0);
    }
    assert forall|j: int| 0 <= j < q implies !occurs_at(rest, em, j) by {
        if occurs_at(rest, em, j) {
            assert(rest.subrange(j, j + em.len())[0] == rest[j]);
            if j < sm.len() {
                assert(rest.take(sm.len() as int) =~= sm);
                lemma_end_after_start(rest, j);
            } else if j == sm.len() {
                assert(rest[j] == '\n');
            } else if j == q - 1 {
                assert(rest[j] == '\n');
            } else if j + em.len() <= q - 1 {
                let i = j - sm.len() - 1;
                assert(j0.subrange(i, i + em.len()) =~= rest.subrange(j, j + em.len()));
                assert(occurs_at(j0, em, i));
            } else {
                assert(rest[q - 1] == '\n');
                assert(rest.subrange(j, j + em.len())[q - 1 - j] == rest[q - 1]);
                assert(em[q - 1 - j] == '\n');
            }
        }
    }
    lemma_find_sub_at(rest, em, q);
}

/// The lines between the markers of a block are its lines, after an
/// empty one; and the empty one is never kept.
proof fn lemma_block_body_lines(ls: Seq<Seq<char>>, hp: Seq<char>, pp: Seq<char>)
    requires
        ls.len() >= 1,
        forall|k: int| 0 <= k < ls.len() ==> !(#[trigger] ls[k]).contains('\n') && ls[k].len() > 0 && ls[k].last() != '\r',
    ensures
        kept_lines(lines(seq!['\n'] + join(ls, '\n') + seq!['\n']), hp, pp) == kept_lines(ls, hp, pp),
{
    let j0 = join(ls, '\n');
    assert(seq!['\n'] + j0 + seq!['\n'] =~= Seq::<char>::empty() + seq!['\n'] + (j0 + seq!['\n']));
    lemma_lines_first(Seq::<char>::empty(), j0 + seq!['\n']);
    lemma_lines_terminated(j0);
    lemma_split_join(ls, '\n');
    assert(Seq::new(split(j0, '\n').len(), |i: int| strip_cr(split(j0, '\n')[i])) =~= ls);
    assert(strip_cr(Seq::<char>::empty()) =~= Seq::<char>::empty());
    let e1 = seq![Seq::<char>::empty()];
    assert(lines(seq!['\n'] + j0 + seq!['\n']) =~= e1 + ls);
    lemma_kept_concat(e1, ls, hp, pp);
    assert(e1.drop_last() =~= Seq::<Seq<char>>::empty());
    assert(e1.last() == Seq::<char>::empty());
    lemma_trim_piece(Seq::<char>::empty());
    assert(trim(e1.last()).len() == 0);
    assert(kept_lines(e1.drop_last(), hp, pp) == Seq::<Seq<char>>::empty());
    assert(kept_lines(e1, hp, pp) == kept_lines(e1.drop_last(), hp, pp));
    assert(Seq::<Seq<char>>::empty() + kept_lines(ls, hp, pp) =~= kept_lines(ls, hp, pp));
}

/// A block written after `pre` is read again as the same lines: updating
/// it keeps the lines that are kept of them and the text around it.
#[verifier::rlimit(60)]
#[verifier::spinoff_prover]
proof fn lemma_block_reread(pre: Seq<char>, ls: Seq<Seq<char>>, post: Seq<char>, nl: Seq<Seq<char>>, kind: RuntimeKind)
    requires
        find_sub(pre + block_text(ls) + post, block_start()) == Some(pre.len() as int),
        ls.len() >= 1,
        forall|k: int| 0 <= k < ls.len() ==> !(#[trigger] ls[k]).contains('\n') && ls[k].len() > 0 && ls[k].last() != '\r',
        forall|k: int, j: int| 0 <= k < ls.len() ==> !(#[trigger] occurs_at(ls[k], block_end(), j)),
    ensures
        upsert_spec(pre + block_text(ls) + post, nl, kind) == Some(
            pre + block_text(kept_lines(ls, home_prefix(kind), path_prefix(kind)) + nl) + post,
        ),
{
    let sm = block_start();
    let em = block_end();
    let x = pre + block_text(ls) + post;
    let st = pre.len() as int;
    let j0 = join(ls, '\n');
    assert(x.skip(st) =~= block_text(ls) + post);
    lemma_block_end_found(ls, post);
    let q: int = (sm.len() + 1 + j0.len() + 1) as int;
    let end = st + q + em.len();
    let body = x.subrange(st + sm.len(), st + q);
    assert(body =~= seq!['\n'] + j0 + seq!['\n']);
    lemma_block_body_lines(ls, home_prefix(kind), path_prefix(kind));
    assert(x.take(st) =~= pre);
    assert(x.skip(end) =~= seq!['\n'] + post);
    assert((seq!['\n'] + post).drop_first() =~= post);
    assert(after_end(x.skip(end)) == post);
}

/// Two texts that agree up to the end of the first occurrence of `m` in
/// one have it first at the same place.
proof fn lemma_same_first(a: Seq<char>, b: Seq<char>, m: Seq<char>, i: int)
    requires
        find_sub(a, m) == Some(i),
        i + m.len() <= b.len(),
        b.take(i + m.len()) == a.take(i + m.len()),
    ensures
        find_sub(b, m) == Some(i),
{
    lemma_find_sub(a, m);
    assert forall|j: int| 0 <= j <= i implies #[trigger] b.subrange(j, j + m.len()) == a.subrange(j, j + m.len()) by {
        assert(b.subrange(j, j + m.len()) =~= b.take(i + m.len()).subrange(j, j + m.len()));
        assert(a.subrange(j, j + m.len()) =~= a.take(i + m.len()).subrange(j, j + m.len()));
    }
    assert(b.subrange(i, i + m.len()) == a.subrange(i, i + m.len()));
    assert forall|j: int| 0 <= j < i implies !occurs_at(b, m, j) by {
        assert(b.subrange(j, j + m.len()) == a.subrange(j, j + m.len()));
        assert(!occurs_at(a, m, j));
    }
    lemma_find_sub_at(b, m, i);
}

/// Without an opening marker in `existing`, the first one of the appended
/// block is found after it and its line feed.
proof fn lemma_start_appended(existing: Seq<char>, tail: Seq<char>)
    requires
        find_sub(existing, block_start()) is None,
        starts_with(tail, block_start()),
    ensures
        find_sub(existing + seq!['\n'] + tail, block_start()) == Some((existing.len() + 1) as int),
{
    lemma_marker_shape();
    lemma_find_sub(existing, block_start());
    let sm = block_start();
    let x = existing + seq!['\n'] + tail;
    let st: int = (existing.len() + 1) as int;
    assert(x.subrange(st, st + sm.len()) =~= tail.take(sm.len() as int));
    assert forall|j: int| 0 <= j < st implies !occurs_at(x, sm, j) by {
        if occurs_at(x, sm, j) {
            if j + sm.len() <= existing.len() {
                assert(existing.subrange(j, j + sm.len()) =~= x.subrange(j, j + sm.len()));
                assert(occurs_at(existing, sm, j));
            } else {
                let n = existing.len() as int;
                assert(x[n] == '\n');
                assert(x.subrange(j, j + sm.len())[n - j] == x[n]);
                assert(sm[n - j] == '\n');
            }
        }
    }
    lemma_find_sub_at(x, sm, st);
}

/// Idempotence when `existing` has no managed block.
#[verifier::rlimit(60)]
#[verifier::spinoff_prover]
proof fn lemma_idempotent_new(existing: Seq<char>, kind: RuntimeKind, path: Seq<char>)
    requires
        !path.contains('\n'),
        forall|j: int| !occurs_at(path, block_end(), j),
        find_sub(existing, block_start()) is None,
    ensures
        upsert_spec(existing, shell_lines_spec(kind, path), kind) == Some(
            existing + seq!['\n'] + block_text(shell_lines_spec(kind, path)),
        ),
        upsert_spec(existing + seq!['\n'] + block_text(shell_lines_spec(kind, path)), shell_lines_spec(kind, path), kind)
            == Some(existing + seq!['\n'] + block_text(shell_lines_spec(kind, path))),
{
    let nl = shell_lines_spec(kind, path);
    let pre = existing + seq!['\n'];
    let s1 = existing + seq!['\n'] + block_text(nl);
    assert(pre + block_text(nl) + Seq::<char>::empty() =~= s1);
    assert(starts_with(block_text(nl), block_start())) by {
        assert(block_text(nl).take(block_start().len() as int) =~= block_start());
    }
    lemma_start_appended(existing, block_text(nl));
    assert(existing + seq!['\n'] + block_text(nl) =~= pre + block_text(nl) + Seq::<char>::empty());
    lemma_shell_lines_shape(kind, path);
    lemma_shell_lines_no_end(kind, path);
    lemma_block_reread(pre, nl, Seq::<char>::empty(), nl, kind);
    lemma_shell_lines_dropped(kind, path);
    assert(Seq::<Seq<char>>::empty() + nl =~= nl);
}

/// The kept lines of a block body are single trimmed lines that never
/// hold the closing marker, when the body lies before the first closing
/// marker after the opening one.
#[verifier::rlimit(60)]
#[verifier::spinoff_prover]
proof fn lemma_kept_body(rest: Seq<char>, off: int, hp: Seq<char>, pp: Seq<char>)
    requires
        block_start().len() <= off,
        find_sub(rest, block_end()) == Some(off),
    ensures
        ({
            let kept = kept_lines(lines(rest.subrange(block_start().len() as int, off)), hp, pp);
            &&& forall|k: int| 0 <= k < kept.len() ==> {
                let t = #[trigger] kept[k];
                &&& !t.contains('\n')
                &&& t.len() > 0
                &&& t.last() != '\r'
                &&& trim(t) == t
                &&& !starts_with(t, hp)
                &&& !starts_with(t, pp)
            }
            &&& forall|k: int, j: int| 0 <= k < kept.len() ==> !(#[trigger] occurs_at(kept[k], block_end(), j))
        }),
{
    lemma_find_sub(rest, block_end());
    lemma_end_marker_chars();
    let em = block_end();
    let ls0 = block_start().len() as int;
    let body = rest.subrange(ls0, off);
    let kept = kept_lines(lines(body), hp, pp);
    lemma_lines_are_pieces(body);
    lemma_kept_lines(lines(body), hp, pp, body);
    lemma_kept_prefixes(lines(body), hp, pp);
    assert forall|k: int| 0 <= k < kept.len() implies {
        let t = #[trigger] kept[k];
        &&& !t.contains('\n')
        &&& t.len() > 0
        &&& t.last() != '\r'
        &&& trim(t) == t
        &&& !starts_with(t, hp)
        &&& !starts_with(t, pp)
    } by {
        lemma_trim_end_last(kept[k]);
    }
    assert forall|k: int, j: int| 0 <= k < kept.len() implies !(#[trigger] occurs_at(kept[k], em, j)) by {
        let t = kept[k];
        if occurs_at(t, em, j) {
            assert(is_piece(t, body));
            let a = choose|a: int| 0 <= a && a + t.len() <= body.len() && #[trigger] body.subrange(a, a + t.len()) == t;
            let w = ls0 + a + j;
            assert forall|i: int| 0 <= i < em.len() implies #[trigger] rest[w + i] == em[i] by {
                assert(t.subrange(j, j + em.len())[i] == t[j + i]);
                assert(body.subrange(a, a + t.len())[j + i] == body[a + j + i]);
            }
            assert(rest.subrange(w, w + em.len()) =~= em);
            assert(w + em.len() <= off);
            assert(occurs_at(rest, em, w));
        }
    }
}

/// Idempotence when `existing` has a managed block.
#[verifier::rlimit(80)]
#[verifier::spinoff_prover]
proof fn lemma_idempotent_existing(existing: Seq<char>, kind: RuntimeKind, path: Seq<char>)
    requires
        !path.contains('\n'),
        forall|j: int| !occurs_at(path, block_end(), j),
        upsert_spec(existing, shell_lines_spec(kind, path), kind) is Some,
        find_sub(existing, block_start()) is Some,
    ensures
        upsert_spec(upsert_spec(existing, shell_lines_spec(kind, path), kind)->0, shell_lines_spec(kind, path), kind)
            == upsert_spec(existing, shell_lines_spec(kind, path), kind),
{
    let nl = shell_lines_spec(kind, path);
    let hp = home_prefix(kind);
    let pp = path_prefix(kind);
    let sm = block_start();
    let em = block_end();
    let st = find_sub(existing, sm)->0;
    let rest0 = existing.skip(st);
    let off = find_sub(rest0, em)->0;
    lemma_find_sub(existing, sm);
    lemma_find_sub(rest0, em);
    assert(off >= sm.len()) by {
        if off < sm.len() {
            assert(rest0.take(sm.len() as int) =~= existing.subrange(st, st + sm.len()));
            lemma_end_after_start(rest0, off);
        }
    }
    let end = st + off + em.len();
    let body = existing.subrange(st + sm.len(), st + off);
    assert(body =~= rest0.subrange(sm.len() as int, off));
    let kept = kept_lines(lines(body), hp, pp);
    let pre = existing.take(st);
    let post = after_end(existing.skip(end));
    let ls = kept + nl;
    let s1 = pre + block_text(ls) + post;
    assert(upsert_spec(existing, nl, kind) == Some(s1));
    // The opening marker is found where it was.
    assert(find_sub(s1, sm) == Some(st)) by {
        lemma_find_sub(existing, sm);
        assert(s1.take(st + sm.len()) =~= existing.take(st + sm.len()));
        lemma_same_first(existing, s1, sm, st);
    }
    lemma_kept_body(rest0, off, hp, pp);
    lemma_shell_lines_shape(kind, path);
    lemma_shell_lines_no_end(kind, path);
    assert forall|k: int| 0 <= k < ls.len() implies !(#[trigger] ls[k]).contains('\n') && ls[k].len() > 0
        && ls[k].last() != '\r' by {
        if k < kept.len() {
            assert(ls[k] == kept[k]);
        } else {
            assert(ls[k] == nl[k - kept.len()]);
        }
    }
    assert forall|k: int, j: int| 0 <= k < ls.len() implies !(#[trigger] occurs_at(ls[k], em, j)) by {
        if k < kept.len() {
            assert(ls[k] == kept[k]);
        } else {
            assert(ls[k] == nl[k - kept.len()]);
        }
    }
    lemma_block_reread(pre, ls, post, nl, kind);
    lemma_kept_concat(kept, nl, hp, pp);
    lemma_kept_fixed(kept, hp, pp);
    lemma_shell_lines_dropped(kind, path);
    assert(kept + Seq::<Seq<char>>::empty() =~= kept);
}

/// Switching again to the version a switch just wrote leaves `~/.zshrc`
/// as it is: the update of the managed block is idempotent, for any home
/// path without a line feed that holds no closing marker.
pub proof fn law_switch_idempotent(existing: Seq<char>, kind: RuntimeKind, path: Seq<char>)
    requires
        !path.contains('\n'),
        forall|j: int| !occurs_at(path, block_end(), j),
        upsert_spec(existing, shell_lines_spec(kind, path), kind) is Some,
    ensures
        upsert_spec(upsert_spec(existing, shell_lines_spec(kind, path), kind)->0, shell_lines_spec(kind, path), kind)
            == upsert_spec(existing, shell_lines_spec(kind, path), kind),
{
    if find_sub(existing, block_start()) is None {
        lemma_idempotent_new(existing, kind, path);
        assert(upsert_spec(existing, shell_lines_spec(kind, path), kind)->0 == existing + seq!['\n'] + block_text(
            shell_lines_spec(kind, path),
        ));
    } else {
        lemma_idempotent_existing(existing, kind, path);
    }
}


// ---------------------------------------------------------------------------
// Switching one runtime, another, then the first again
// ---------------------------------------------------------------------------

/// Two runtimes have different home variables.
proof fn lemma_env_vars_distinct(a: RuntimeKind, b: RuntimeKind)
    requires
        a != b,
    ensures
        env_var_of(a) != env_var_of(b),
{
    reveal_strlit("JAVA_HOME");
    reveal_strlit("NODE_HOME");
    reveal_strlit("GOROOT");
    reveal_strlit("MAVEN_HOME");
    reveal_strlit("PYTHON_HOME");
    reveal_strlit("RUST_HOME");
    if env_var_of(a) == env_var_of(b) {
        assert(env_var_of(a).len() == env_var_of(b).len());
        assert(env_var_of(a)[0] == env_var_of(b)[0]);
    }
}

/// When `v1`, `c`, ... starts with `v2`, `c`, ... and neither name holds
/// `c`, the names are the same.
proof fn lemma_same_name(v1: Seq<char>, v2: Seq<char>, c: char, r1: Seq<char>, r2: Seq<char>)
    requires
        starts_with(v1 + seq![c] + r1, v2 + seq![c] + r2),
        !v1.contains(c),
        !v2.contains(c),
    ensures
        v1 == v2,
{
    let x = v1 + seq![c] + r1;
    let y = v2 + seq![c] + r2;
    assert forall|i: int| 0 <= i < y.len() implies x[i] == y[i] by {
        assert(x.take(y.len() as int)[i] == x[i]);
    }
    if v1.len() < v2.len() {
        assert(x[v1.len() as int] == c);
        assert(y[v1.len() as int] == v2[v1.len() as int]);
    } else if v2.len() < v1.len() {
        assert(y[v2.len() as int] == c);
        assert(x[v2.len() as int] == v1[v2.len() as int]);
    } else {
        assert forall|i: int| 0 <= i < v1.len() implies v1[i] == v2[i] by {
            assert(x[i] == y[i]);
        }
        assert(v1 =~= v2);
    }
}

/// The shell lines of one runtime are kept when another is switched.
#[verifier::rlimit(80)]
#[verifier::spinoff_prover]
proof fn lemma_other_lines_kept(a: RuntimeKind, path: Seq<char>, b: RuntimeKind)
    requires
        a != b,
        !path.contains('\n'),
    ensures
        kept_lines(shell_lines_spec(a, path), home_prefix(b), path_prefix(b)) == shell_lines_spec(a, path),
{
    reveal_strlit("export ");
    reveal_strlit("=\"");
    reveal_strlit("=");
    reveal_strlit("\"");
    reveal_strlit("export PATH=\"$");
    reveal_strlit("/bin:$PATH\"");
    reveal_strlit("/bin");
    reveal_strlit("PATH");
    lemma_env_var_shape(a);
    lemma_env_var_shape(b);
    lemma_env_vars_distinct(a, b);
    lemma_home_line_shape(a, path);
    lemma_path_line_reads_nothing(a);
    let va = env_var_of(a);
    let vb = env_var_of(b);
    let e = "export "@;
    let pth = "PATH"@;
    let h = home_line(a, path);
    let pl = path_line(a);
    let hp = home_prefix(b);
    let pp = path_prefix(b);
    assert(!va.contains('=')) by {
        if va.contains('=') {
            let j = choose|j: int| 0 <= j < va.len() && va[j] == '=';
        }
    }
    assert(!vb.contains('=')) by {
        if vb.contains('=') {
            let j = choose|j: int| 0 <= j < vb.len() && vb[j] == '=';
        }
    }
    assert(!va.contains('/')) by {
        if va.contains('/') {
            let j = choose|j: int| 0 <= j < va.len() && va[j] == '/';
        }
    }
    assert(!vb.contains('/')) by {
        if vb.contains('/') {
            let j = choose|j: int| 0 <= j < vb.len() && vb[j] == '/';
        }
    }
    assert(!pth.contains('=')) by {
        if pth.contains('=') {
            let j = choose|j: int| 0 <= j < pth.len() && pth[j] == '=';
        }
    }
    // The home line of `a` against the prefixes of `b`.
    let hr = seq!['"'] + path + seq!['"'];
    assert(h =~= e + (va + seq!['='] + hr));
    assert(hp =~= e + (vb + seq!['='] + Seq::<char>::empty()));
    assert(pp =~= e + (pth + seq!['='] + ("\"$"@ + vb + "/bin"@))) by {
        reveal_strlit("\"$");
    }
    if starts_with(h, hp) {
        let x = va + seq!['='] + hr;
        let y = vb + seq!['='] + Seq::<char>::empty();
        assert(h.take(hp.len() as int) == hp);
        assert(hp.skip(7) =~= y);
        assert(x.take(y.len() as int) =~= h.take(hp.len() as int).skip(7));
        assert(starts_with(x, y));
        lemma_same_name(va, vb, '=', hr, Seq::<char>::empty());
    }
    if starts_with(h, pp) {
        let x = va + seq!['='] + hr;
        let y = pth + seq!['='] + ("\"$"@ + vb + "/bin"@);
        assert(h.take(pp.len() as int) == pp);
        assert(pp.skip(7) =~= y);
        assert(x.take(y.len() as int) =~= h.take(pp.len() as int).skip(7));
        assert(starts_with(x, y));
        lemma_same_name(va, pth, '=', hr, "\"$"@ + vb + "/bin"@);
    }
    // The `PATH` line of `a` against the prefixes of `b`.
    let plr = "\"$"@ + va + "/bin:$PATH\""@;
    assert(pl =~= e + (pth + seq!['='] + plr)) by {
        reveal_strlit("\"$");
    }
    if starts_with(pl, hp) {
        let x = pth + seq!['='] + plr;
        let y = vb + seq!['='] + Seq::<char>::empty();
        assert(pl.take(hp.len() as int) == hp);
        assert(hp.skip(7) =~= y);
        assert(x.take(y.len() as int) =~= pl.take(hp.len() as int).skip(7));
        assert(starts_with(x, y));
        lemma_same_name(pth, vb, '=', plr, Seq::<char>::empty());
    }
    let q = "export PATH=\"$"@;
    let ar = ":$PATH\""@;
    assert(pl =~= q + (va + seq!['/'] + ("bin"@ + ar))) by {
        reveal_strlit(":$PATH\"");
        reveal_strlit("bin");
    }
    assert(pp =~= q + (vb + seq!['/'] + "bin"@)) by {
        reveal_strlit("bin");
    }
    if starts_with(pl, pp) {
        let x = va + seq!['/'] + ("bin"@ + ar);
        let y = vb + seq!['/'] + "bin"@;
        assert(pl.take(pp.len() as int) == pp);
        assert(pp.skip(q.len() as int) =~= y);
        assert(x.take(y.len() as int) =~= pl.take(pp.len() as int).skip(q.len() as int));
        assert(starts_with(x, y));
        lemma_same_name(va, vb, '/', "bin"@ + ar, "bin"@);
    }
    let nl = shell_lines_spec(a, path);
    assert forall|k: int| 0 <= k < nl.len() implies {
        let t = #[trigger] nl[k];
        &&& trim(t) == t
        &&& t.len() > 0
        &&& !starts_with(t, hp)
        &&& !starts_with(t, pp)
    } by {
        if k == 0 {
            assert(nl[k] == h);
        } else {
            assert(nl[k] == pl);
        }
    }
    lemma_kept_fixed(nl, hp, pp);
}



/// The second of three switches: the lines of `b` join those of `a`.
#[verifier::rlimit(60)]
#[verifier::spinoff_prover]
proof fn lemma_switch_second(existing: Seq<char>, a: RuntimeKind, pa: Seq<char>, b: RuntimeKind, pb: Seq<char>)
    requires
        a != b,
        !pa.contains('\n'),
        forall|j: int| !occurs_at(pa, block_end(), j),
        find_sub(existing, block_start()) is None,
    ensures
        upsert_spec(existing + seq!['\n'] + block_text(shell_lines_spec(a, pa)), shell_lines_spec(b, pb), b) == Some(
            existing + seq!['\n'] + block_text(shell_lines_spec(a, pa) + shell_lines_spec(b, pb)),
        ),
{
    let j1 = shell_lines_spec(a, pa);
    let nb = shell_lines_spec(b, pb);
    let pre = existing + seq!['\n'];
    let e = Seq::<char>::empty();
    assert(starts_with(block_text(j1), block_start())) by {
        assert(block_text(j1).take(block_start().len() as int) =~= block_start());
    }
    lemma_start_appended(existing, block_text(j1));
    assert(existing + seq!['\n'] + block_text(j1) =~= pre + block_text(j1) + e);
    lemma_shell_lines_shape(a, pa);
    lemma_shell_lines_no_end(a, pa);
    lemma_block_reread(pre, j1, e, nb, b);
    lemma_other_lines_kept(a, pa, b);
    assert(pre + block_text(j1 + nb) + e =~= existing + seq!['\n'] + block_text(j1 + nb));
}

/// The third of three switches: the lines of `a` are written anew after
/// those of `b`.
#[verifier::rlimit(60)]
#[verifier::spinoff_prover]
proof fn lemma_switch_third(
    existing: Seq<char>,
    a: RuntimeKind,
    pa: Seq<char>,
    b: RuntimeKind,
    pb: Seq<char>,
    pa2: Seq<char>,
)
    requires
        a != b,
        !pa.contains('\n'),
        !pb.contains('\n'),
        forall|j: int| !occurs_at(pa, block_end(), j),
        forall|j: int| !occurs_at(pb, block_end(), j),
        find_sub(existing, block_start()) is None,
    ensures
        upsert_spec(
            existing + seq!['\n'] + block_text(shell_lines_spec(a, pa) + shell_lines_spec(b, pb)),
            shell_lines_spec(a, pa2),
            a,
        ) == Some(existing + seq!['\n'] + block_text(shell_lines_spec(b, pb) + shell_lines_spec(a, pa2))),
{
    let j1 = shell_lines_spec(a, pa);
    let nb = shell_lines_spec(b, pb);
    let j2 = shell_lines_spec(a, pa2);
    let pre = existing + seq!['\n'];
    let e = Seq::<char>::empty();
    let l2 = j1 + nb;
    assert(starts_with(block_text(l2), block_start())) by {
        assert(block_text(l2).take(block_start().len() as int) =~= block_start());
    }
    lemma_start_appended(existing, block_text(l2));
    assert(existing + seq!['\n'] + block_text(l2) =~= pre + block_text(l2) + e);
    lemma_shell_lines_shape(a, pa);
    lemma_shell_lines_no_end(a, pa);
    lemma_shell_lines_shape(b, pb);
    lemma_shell_lines_no_end(b, pb);
    assert forall|k: int| 0 <= k < l2.len() implies !(#[trigger] l2[k]).contains('\n') && l2[k].len() > 0
        && l2[k].last() != '\r' by {
        if k < 2 {
            assert(l2[k] == j1[k]);
        } else {
            assert(l2[k] == nb[k - 2]);
        }
    }
    assert forall|k: int, j: int| 0 <= k < l2.len() implies !(#[trigger] occurs_at(l2[k], block_end(), j)) by {
        if k < 2 {
            assert(l2[k] == j1[k]);
        } else {
            assert(l2[k] == nb[k - 2]);
        }
    }
    lemma_block_reread(pre, l2, e, j2, a);
    lemma_kept_concat(j1, nb, home_prefix(a), path_prefix(a));
    lemma_shell_lines_dropped(a, pa);
    lemma_other_lines_kept(b, pb, a);
    assert(Seq::<Seq<char>>::empty() + nb =~= nb);
    assert(pre + block_text(nb + j2) + e =~= existing + seq!['\n'] + block_text(nb + j2));
}

/// What the file of three switches activates: `pb`, then `pa2`.
#[verifier::rlimit(60)]
#[verifier::spinoff_prover]
proof fn lemma_switch_pair_paths(existing: Seq<char>, a: RuntimeKind, b: RuntimeKind, pb: Seq<char>, pa2: Seq<char>)
    requires
        path_reads_back(pb),
        path_reads_back(pa2),
        markers_well_placed(existing),
        find_sub(existing, block_start()) is None,
    ensures
        active_paths(existing + seq!['\n'] + block_text(shell_lines_spec(b, pb) + shell_lines_spec(a, pa2)))
            == seq![pb, pa2],
{
    let nb = shell_lines_spec(b, pb);
    let j2 = shell_lines_spec(a, pa2);
    let e = Seq::<char>::empty();
    let l3 = nb + j2;
    lemma_shell_lines_shape(b, pb);
    lemma_shell_lines_shape(a, pa2);
    lemma_shell_lines_paths(b, pb, e);
    lemma_shell_lines_paths(a, pa2, e);
    let tail = seq![block_end()] + lines(e);
    assert forall|k: int| 0 <= k < nb.len() implies !starts_with(trim(#[trigger] nb[k]), block_end()) by {}
    lemma_block_paths_inside(nb, j2 + tail);
    assert(l3 + tail =~= nb + (j2 + tail));
    assert forall|k: int| 0 <= k < l3.len() implies {
        let l = #[trigger] l3[k];
        &&& !l.contains('\n')
        &&& l.len() > 0
        &&& l.last() != '\r'
        &&& !starts_with(trim(l), block_end())
    } by {
        if k < 2 {
            assert(l3[k] == nb[k]);
        } else {
            assert(l3[k] == j2[k - 2]);
        }
    }
    assert(seq![pb] + seq![pa2] =~= seq![pb, pa2]);
    lemma_reads_back_lines(existing, l3, seq![pb, pa2]);
}

/// After a switch of `a` to `pa` and of `b` to `pb` on a file without a
/// managed block, switching `a` again to `pa2` keeps the text before the
/// block and the lines of `b`, and writes the lines of `a` anew at the end
/// of the block: the file then activates `pb`, then `pa2`.  (`pa` need
/// only hold no line feed; `pb` and `pa2` read back as written.)
#[verifier::rlimit(100)]
#[verifier::spinoff_prover]
pub proof fn law_switch_back(
    existing: Seq<char>,
    a: RuntimeKind,
    pa: Seq<char>,
    b: RuntimeKind,
    pb: Seq<char>,
    pa2: Seq<char>,
)
    requires
        a != b,
        !pa.contains('\n'),
        path_reads_back(pb),
        path_reads_back(pa2),
        forall|j: int| !occurs_at(pa, block_end(), j),
        forall|j: int| !occurs_at(pb, block_end(), j),
        markers_well_placed(existing),
        find_sub(existing, block_start()) is None,
    ensures
        ({
            let s1 = upsert_spec(existing, shell_lines_spec(a, pa), a)->0;
            let s2 = upsert_spec(s1, shell_lines_spec(b, pb), b)->0;
            let s3 = upsert_spec(s2, shell_lines_spec(a, pa2), a);
            &&& s3 == Some(existing + seq!['\n'] + block_text(shell_lines_spec(b, pb) + shell_lines_spec(a, pa2)))
            &&& starts_with(s3->0, existing)
            &&& active_paths(s3->0) == seq![pb, pa2]
        }),
{
    let s1 = existing + seq!['\n'] + block_text(shell_lines_spec(a, pa));
    let s2 = existing + seq!['\n'] + block_text(shell_lines_spec(a, pa) + shell_lines_spec(b, pb));
    let s3 = existing + seq!['\n'] + block_text(shell_lines_spec(b, pb) + shell_lines_spec(a, pa2));
    assert(upsert_spec(existing, shell_lines_spec(a, pa), a) == Some(s1)) by {
        lemma_idempotent_new(existing, a, pa);
    }
    assert(upsert_spec(s1, shell_lines_spec(b, pb), b) == Some(s2)) by {
        lemma_switch_second(existing, a, pa, b, pb);
    }
    assert(upsert_spec(s2, shell_lines_spec(a, pa2), a) == Some(s3)) by {
        lemma_switch_third(existing, a, pa, b, pb, pa2);
    }
    assert(active_paths(s3) == seq![pb, pa2]) by {
        lemma_switch_pair_paths(existing, a, b, pb, pa2);
    }
    assert(s3.take(existing.len() as int) =~= existing);
}

// ---------------------------------------------------------------------------
// The start-up check
// ---------------------------------------------------------------------------

/// Whether `~/.zshrc` holding `content` has an opening marker of the
/// managed block but no closing one (reported by the start-up check).
pub open spec fn block_unclosed_spec(content: Seq<char>) -> bool {
    find_sub(content, block_start()) is Some && find_sub(content, block_end()) is None
}

/// Whether the managed block of `~/.zshrc` is opened but never closed.
pub fn block_unclosed(content: &str) -> (r: bool)
    ensures
        r == block_unclosed_spec(content@),
{
    let c = chars_of(content);
    find_sub_in(c.as_slice(), block_start_chars().as_slice()).is_some() && find_sub_in(
        c.as_slice(),
        block_end_chars().as_slice(),
    ).is_none()
}

} // verus!

//! The vision helper (an MCP server run by Python): which Python it runs
//! on, whether a Python is recent enough, its state and its log.
use vstd::prelude::*;
use crate::order::{version_order, order_versions, Order};
use crate::services::tail_spec;
use crate::text::{
    chars_of, owned, parse_uint, parse_unsigned, seqs_of, split, split_at_char, string_of, strs_of, trim,
    trim_chars, words, words_of, lemma_split_nonempty, starts_with, lines, lines_of, push_str, push_all,
};

verus! {

/// The state of the vision helper.
#[derive(Debug, Clone)]
pub struct VisionInfo {
    pub running: bool,
    pub pid: Option<u32>,
    pub log_file: String,
    /// The Python 3.10 or newer that it runs on, if one was found.
    pub python: Option<String>,
    /// Whether its virtual environment exists.
    pub deps_ready: bool,
}

/// The state of the helper: `pid` is the content of its pid file, `alive`
/// whether that process exists.
pub fn info(pid: Option<u32>, alive: bool, log_file: String, python: Option<String>, deps_ready: bool) -> (r:
    VisionInfo)
    ensures
        r.running == (pid is Some && alive),
        r.pid == (if pid is Some && alive {
            pid
        } else {
            None
        }),
        r.log_file == log_file,
        r.python == python,
        r.deps_ready == deps_ready,
{
    let running = pid.is_some() && alive;
    VisionInfo { running, pid: if running {
        pid
    } else {
        None
    }, log_file, python, deps_ready }
}

/// A dotted field as a number (0 when absent or not a `u32`).
pub open spec fn field_or_zero(ps: Seq<Seq<char>>, i: int) -> nat {
    if 0 <= i < ps.len() {
        match parse_uint(ps[i], 4294967295) {
            Some(v) => v,
            None => 0,
        }
    } else {
        0
    }
}

/// Whether the output of `python --version` names Python 3.10 or newer:
/// its second word (`0` when missing) read as `major.minor`.
pub open spec fn version_ok_spec(output: Seq<char>) -> bool {
    let w = words(output);
    let v = if w.len() > 1 {
        w[1]
    } else {
        "0"@
    };
    let ps = split(v, '.');
    let major = field_or_zero(ps, 0);
    let minor = field_or_zero(ps, 1);
    major > 3 || (major == 3 && minor >= 10)
}

/// A dotted field as a number.
fn field_of(ps: &Vec<Vec<char>>, i: usize) -> (r: u64)
    ensures
        r == field_or_zero(seqs_of(ps@), i as int),
{
    if i < ps.len() {
        match parse_unsigned(ps[i].as_slice(), 4294967295) {
            Some(v) => v,
            None => 0,
        }
    } else {
        0
    }
}

/// Whether the output of `python --version` names Python 3.10 or newer.
pub fn version_ok(output: &str) -> (r: bool)
    ensures
        r == version_ok_spec(output@),
{
    let c = chars_of(output);
    let w = words_of(c.as_slice());
    let v = if w.len() > 1 {
        crate::text::slice(w[1].as_slice(), 0, w[1].len())
    } else {
        chars_of("0")
    };
    proof {
        if seqs_of(w@).len() > 1 {
            assert(w@[1]@.subrange(0, w@[1]@.len() as int) =~= w@[1]@);
            assert(seqs_of(w@)[1] == w@[1]@);
        }
    }
    let ps = split_at_char(v.as_slice(), '.');
    let major = field_of(&ps, 0);
    let minor = field_of(&ps, 1);
    major > 3 || (major == 3 && minor >= 10)
}

/// Whether a probed Python is accepted: it answered `--version` with a
/// version of 3.10 or newer.
pub fn accepts_python(output: Option<&str>) -> (r: bool)
    ensures
        r == match output {
            Some(o) => version_ok_spec(o@),
            None => false,
        },
{
    match output {
        Some(o) => version_ok(o),
        None => false,
    }
}

/// The Pythons tried in turn when none is managed: Homebrew's by absolute
/// path, newest first, then those on `PATH`.
pub open spec fn candidates_spec() -> Seq<Seq<char>> {
    seq![
        "/opt/homebrew/bin/python3.14"@,
        "/opt/homebrew/bin/python3.13"@,
        "/opt/homebrew/bin/python3.12"@,
        "/opt/homebrew/bin/python3.11"@,
        "/opt/homebrew/bin/python3.10"@,
        "/opt/homebrew/bin/python3"@,
        "/usr/local/bin/python3"@,
        "python3.14"@,
        "python3.13"@,
        "python3.12"@,
        "python3.11"@,
        "python3.10"@,
        "python3"@,
    ]
}

/// The Pythons tried in turn when none is managed.
pub fn python_candidates() -> (r: Vec<String>)
    ensures
        strs_of(r@) == candidates_spec(),
{
    let mut r: Vec<String> = Vec::new();
    r.push(owned("/opt/homebrew/bin/python3.14"));
    r.push(owned("/opt/homebrew/bin/python3.13"));
    r.push(owned("/opt/homebrew/bin/python3.12"));
    r.push(owned("/opt/homebrew/bin/python3.11"));
    r.push(owned("/opt/homebrew/bin/python3.10"));
    r.push(owned("/opt/homebrew/bin/python3"));
    r.push(owned("/usr/local/bin/python3"));
    r.push(owned("python3.14"));
    r.push(owned("python3.13"));
    r.push(owned("python3.12"));
    r.push(owned("python3.11"));
    r.push(owned("python3.10"));
    r.push(owned("python3"));
    assert(strs_of(r@) =~= candidates_spec());
    r
}

/// The path used for an accepted candidate `name`: itself when absolute,
/// else what `which` printed (trimmed) when it printed something, else the
/// name.
pub open spec fn python_path_spec(name: Seq<char>, which: Option<Seq<char>>) -> Seq<char> {
    if name.len() > 0 && name[0] == '/' {
        name
    } else {
        match which {
            Some(w) => if trim(w).len() > 0 {
                trim(w)
            } else {
                name
            },
            None => name,
        }
    }
}

/// The path used for an accepted candidate.
pub fn python_path(name: &str, which: Option<&str>) -> (r: String)
    ensures
        r@ == python_path_spec(
            name@,
            match which {
                Some(w) => Some(w@),
                None => None,
            },
        ),
{
    let n = chars_of(name);
    if n.len() > 0 && n[0] == '/' {
        return owned(name);
    }
    match which {
        Some(w) => {
            let t = trim_chars(chars_of(w).as_slice());
            if t.len() > 0 {
                string_of(t.as_slice())
            } else {
                owned(name)
            }
        },
        None => owned(name),
    }
}

/// The managed Python to use among `found` (version, program): the
/// newest, the first of equally new ones.
pub open spec fn best_python(found: Seq<(Seq<char>, Seq<char>)>) -> Option<(Seq<char>, Seq<char>)>
    decreases found.len(),
{
    if found.len() == 0 {
        None
    } else {
        let b = best_python(found.drop_last());
        let l = found.last();
        match b {
            None => Some(l),
            Some(x) => if version_order(l.0, x.0) == Order::Greater {
                Some(l)
            } else {
                b
            },
        }
    }
}

/// The pairs of strings as pairs of character sequences.
pub open spec fn pair_views(v: Seq<(String, String)>) -> Seq<(Seq<char>, Seq<char>)> {
    Seq::new(v.len(), |i: int| (v[i].0@, v[i].1@))
}

/// The program of the newest managed Python among `found` (the versions
/// installed under `~/.novaenv/installs/python` that have `bin/python3`,
/// with that program).
pub fn novaenv_python(found: &Vec<(String, String)>) -> (r: Option<String>)
    ensures
        match best_python(pair_views(found@)) {
            Some(b) => r matches Some(p) && p@ == b.1,
            None => r is None,
        },
{
    let ghost all = pair_views(found@);
    let mut best: Option<usize> = None;
    let mut i: usize = 0;
    assert(all.take(0) =~= Seq::<(Seq<char>, Seq<char>)>::empty());
    while i < found.len()
        invariant
            i <= found@.len(),
            all == pair_views(found@),
            match best_python(all.take(i as int)) {
                Some(b) => best matches Some(k) && k < i && all[k as int] == b,
                None => best is None,
            },
        decreases found@.len() - i,
    {
        proof {
            let t = all.take(i + 1);
            assert(t.drop_last() =~= all.take(i as int));
            assert(t.last() == all[i as int]);
        }
        match best {
            None => {
                best = Some(i);
            },
            Some(k) => {
                let a = chars_of(found[i].0.as_str());
                let b = chars_of(found[k].0.as_str());
                if order_versions(a.as_slice(), b.as_slice()) == Order::Greater {
                    best = Some(i);
                }
            },
        }
        i = i + 1;
    }
    assert(all.take(found@.len() as int) =~= all);
    match best {
        Some(k) => Some(found[k].1.clone()),
        None => None,
    }
}

/// The key given for the helper: trimmed, and not blank.
pub fn api_key(key: Option<String>) -> (r: Result<String, String>)
    ensures
        match key {
            Some(k) if trim(k@).len() > 0 => r matches Ok(s) && s@ == trim(k@),
            _ => r matches Err(e) && e@ == "请先填写智谱 API Key"@,
        },
{
    match key {
        Some(k) => {
            let t = trim_chars(chars_of(k.as_str()).as_slice());
            if t.len() > 0 {
                Ok(string_of(t.as_slice()))
            } else {
                Err(owned("请先填写智谱 API Key"))
            }
        },
        None => Err(owned("请先填写智谱 API Key")),
    }
}

/// The last 100 lines of the helper's log, from `content` read at its end
/// (`truncated` when the read began after its start).
pub fn logs(content: &str, truncated: bool) -> (r: Result<String, String>)
    ensures
        r matches Ok(s) && s@ == tail_spec(content@, truncated, 100),
{
    Ok(crate::services::tail_text(content, truncated, 100))
}

// ---------------------------------------------------------------------------
// Installing the dependencies
// ---------------------------------------------------------------------------

/// The package indexes tried in turn: three mirrors, then the official
/// index (`None`).
pub open spec fn pip_indexes_spec() -> Seq<Option<Seq<char>>> {
    seq![
        Some("https://mirrors.aliyun.com/pypi/simple"@),
        Some("https://mirrors.cloud.tencent.com/pypi/simple"@),
        Some("https://pypi.tuna.tsinghua.edu.cn/simple"@),
        None,
    ]
}

/// The views of optional texts.
pub open spec fn opt_views(v: Seq<Option<String>>) -> Seq<Option<Seq<char>>> {
    Seq::new(
        v.len(),
        |i: int|
            match v[i] {
                Some(s) => Some(s@),
                None => None,
            },
    )
}

/// The package indexes tried in turn.
pub fn pip_indexes() -> (r: Vec<Option<String>>)
    ensures
        opt_views(r@) == pip_indexes_spec(),
{
    let mut r: Vec<Option<String>> = Vec::new();
    r.push(Some(owned("https://mirrors.aliyun.com/pypi/simple")));
    r.push(Some(owned("https://mirrors.cloud.tencent.com/pypi/simple")));
    r.push(Some(owned("https://pypi.tuna.tsinghua.edu.cn/simple")));
    r.push(None);
    assert(opt_views(r@) =~= pip_indexes_spec());
    r
}

/// The arguments of `python` that install the requirements file
/// `requirements` quietly, from `index` when one is given.
pub open spec fn pip_args_spec(index: Option<Seq<char>>, requirements: Seq<char>) -> Seq<Seq<char>> {
    seq!["-m"@, "pip"@, "install"@, "-q"@] + match index {
        Some(u) => seq!["-i"@, u],
        None => seq![],
    } + seq!["-r"@, requirements]
}

/// The arguments of `python` that install the requirements.
pub fn pip_args(index: Option<&str>, requirements: &str) -> (r: Vec<String>)
    ensures
        strs_of(r@) == pip_args_spec(
            match index {
                Some(u) => Some(u@),
                None => None,
            },
            requirements@,
        ),
{
    let mut r: Vec<String> = Vec::new();
    r.push(owned("-m"));
    r.push(owned("pip"));
    r.push(owned("install"));
    r.push(owned("-q"));
    match index {
        Some(u) => {
            r.push(owned("-i"));
            r.push(owned(u));
        },
        None => {},
    }
    r.push(owned("-r"));
    r.push(owned(requirements));
    assert(strs_of(r@) =~= pip_args_spec(
        match index {
            Some(u) => Some(u@),
            None => None,
        },
        requirements@,
    ));
    r
}

/// The lines `ls` joined by `sep`.
pub open spec fn joined(ls: Seq<Seq<char>>, sep: Seq<char>) -> Seq<char>
    decreases ls.len(),
{
    if ls.len() == 0 {
        seq![]
    } else if ls.len() == 1 {
        ls[0]
    } else {
        joined(ls.drop_last(), sep) + sep + ls.last()
    }
}

/// What a failed install reports: the last six lines of pip's error
/// output, the last one first, joined by ` | `.
pub open spec fn pip_failure_spec(stderr: Seq<char>) -> Seq<char> {
    let r = lines(stderr).reverse();
    joined(r.take(if r.len() < 6 {
        r.len() as int
    } else {
        6
    }), " | "@)
}

/// What a failed install reports.
pub fn pip_failure(stderr: &str) -> (r: String)
    ensures
        r@ == pip_failure_spec(stderr@),
{
    let ls = lines_of(chars_of(stderr).as_slice());
    let ghost all = lines(stderr@).reverse();
    let n = ls.len();
    let count: usize = if n < 6 {
        n
    } else {
        6
    };
    let sep = chars_of(" | ");
    let mut out: Vec<char> = Vec::new();
    let mut k: usize = 0;
    assert(all.len() == n);
    while k < count
        invariant
            k <= count,
            count <= n,
            n == ls@.len(),
            all == lines(stderr@).reverse(),
            seqs_of(ls@) == lines(stderr@),
            sep@ == " | "@,
            out@ == joined(all.take(k as int), " | "@),
        decreases count - k,
    {
        let ghost before = out@;
        let line = &ls[n - 1 - k];
        assert(all[k as int] == seqs_of(ls@)[n - 1 - k]);
        assert(all.take(k + 1).drop_last() =~= all.take(k as int));
        if k > 0 {
            push_all(&mut out, sep.as_slice());
        }
        push_all(&mut out, line.as_slice());
        proof {
            if k == 0 {
                assert(out@ =~= all.take(1)[0]);
            } else {
                assert(out@ =~= before + " | "@ + all.take(k + 1).last());
            }
        }
        k = k + 1;
    }
    string_of(out.as_slice())
}

/// The error of a failed install of the dependencies, from what pip
/// reported last.
pub open spec fn deps_error_spec(failure: Seq<char>) -> Seq<char> {
    "安装依赖失败（fastmcp/openai/Pillow）："@ + failure + "\n（已尝试阿里云/腾讯云/清华/官方源，详情见日志）"@
}

/// The error of a failed install of the dependencies.
pub fn deps_error(failure: &str) -> (r: String)
    ensures
        r@ == deps_error_spec(failure@),
{
    let mut s = chars_of("安装依赖失败（fastmcp/openai/Pillow）：");
    push_str(&mut s, failure);
    push_str(&mut s, "\n（已尝试阿里云/腾讯云/清华/官方源，详情见日志）");
    string_of(s.as_slice())
}

} // verus!

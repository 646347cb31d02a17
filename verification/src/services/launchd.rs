//! launchd on macOS: the label, the place and the text of the LaunchAgent
//! that keeps a service running (`RunAtLoad` starts it at login,
//! `KeepAlive` restarts it when it stops).
//!
//! One agent per service version:
//! `~/Library/LaunchAgents/com.novahub.novaenv.<kind>-<version>.plist`.
use vstd::prelude::*;
use crate::activation::Platform;
use crate::platform::{join_spec, path_join};
use crate::text::{
    chars_of, decimal, join, join_with, push_all, push_decimal, push_str, seqs_of, string_of, strs_of, starts_with, is_piece,
    lemma_piece_at,
};

verus! {

/// The prefix of every label.
pub const LABEL_PREFIX: &'static str = "com.novahub.novaenv";

/// The label of the agent of `kind` at `version`.
pub open spec fn label_spec(kind: Seq<char>, version: Seq<char>) -> Seq<char> {
    LABEL_PREFIX@ + "."@ + kind + "-"@ + version
}

/// The label of the agent of `kind` at `version`.
pub fn label(kind: &str, version: &str) -> (r: String)
    ensures
        r@ == label_spec(kind@, version@),
{
    let mut s = chars_of(LABEL_PREFIX);
    push_str(&mut s, ".");
    push_str(&mut s, kind);
    push_str(&mut s, "-");
    push_str(&mut s, version);
    string_of(s.as_slice())
}

/// The directory of the agents under the home directory `home` (the
/// current directory when there is none).
pub open spec fn agents_dir_spec(home: Option<Seq<char>>) -> Seq<char> {
    join_spec(
        Platform::MacOs,
        match home {
            Some(h) => h,
            None => seq![],
        },
        "Library/LaunchAgents"@,
    )
}

/// Where the agent of `kind` at `version` is written.
pub open spec fn plist_path_spec(home: Option<Seq<char>>, kind: Seq<char>, version: Seq<char>) -> Seq<char> {
    join_spec(Platform::MacOs, agents_dir_spec(home), label_spec(kind, version) + ".plist"@)
}

/// Where the agent of `kind` at `version` is written; `home` is the value
/// of `HOME`.
pub fn plist_path(home: Option<&str>, kind: &str, version: &str) -> (r: String)
    ensures
        r@ == plist_path_spec(
            match home {
                Some(h) => Some(h@),
                None => None,
            },
            kind@,
            version@,
        ),
{
    proof {
        reveal_strlit("Library/LaunchAgents");
        reveal_strlit("com.novahub.novaenv");
    }
    let h = match home {
        Some(h) => h,
        None => "",
    };
    proof {
        if home is None {
            reveal_strlit("");
        }
    }
    let dir = path_join(Platform::MacOs, h, "Library/LaunchAgents");
    let mut f = chars_of(label(kind, version).as_str());
    push_str(&mut f, ".plist");
    let file = string_of(f.as_slice());
    path_join(Platform::MacOs, dir.as_str(), file.as_str())
}

// ---------------------------------------------------------------------------
// XML escaping
// ---------------------------------------------------------------------------

/// The XML text of one character.
pub open spec fn xml_char(c: char) -> Seq<char> {
    if c == '&' {
        "&amp;"@
    } else if c == '<' {
        "&lt;"@
    } else if c == '>' {
        "&gt;"@
    } else if c == '"' {
        "&quot;"@
    } else {
        seq![c]
    }
}

/// `s` with `&`, `<`, `>` and `"` written as entities.
pub open spec fn xml_escaped(s: Seq<char>) -> Seq<char>
    decreases s.len(),
{
    if s.len() == 0 {
        seq![]
    } else {
        xml_char(s[0]) + xml_escaped(s.drop_first())
    }
}

/// The text an XML reader takes from `t`: the four entities stand for
/// their characters.
pub open spec fn xml_unescaped(t: Seq<char>) -> Seq<char>
    decreases t.len(),
{
    if t.len() == 0 {
        seq![]
    } else if starts_with(t, "&amp;"@) {
        proof {
            reveal_strlit("&amp;");
        }
        seq!['&'] + xml_unescaped(t.skip(5))
    } else if starts_with(t, "&lt;"@) {
        proof {
            reveal_strlit("&lt;");
        }
        seq!['<'] + xml_unescaped(t.skip(4))
    } else if starts_with(t, "&gt;"@) {
        proof {
            reveal_strlit("&gt;");
        }
        seq!['>'] + xml_unescaped(t.skip(4))
    } else if starts_with(t, "&quot;"@) {
        proof {
            reveal_strlit("&quot;");
        }
        seq!['"'] + xml_unescaped(t.skip(6))
    } else {
        seq![t[0]] + xml_unescaped(t.drop_first())
    }
}

/// Escaping distributes over concatenation.
proof fn lemma_xml_escaped_concat(a: Seq<char>, b: Seq<char>)
    ensures
        xml_escaped(a + b) == xml_escaped(a) + xml_escaped(b),
    decreases a.len(),
{
    if a.len() == 0 {
        assert(a + b =~= b);
        assert(xml_escaped(a) + xml_escaped(b) =~= xml_escaped(b));
    } else {
        lemma_xml_escaped_concat(a.drop_first(), b);
        assert((a + b).drop_first() =~= a.drop_first() + b);
        assert((a + b)[0] == a[0]);
        assert(xml_char(a[0]) + (xml_escaped(a.drop_first()) + xml_escaped(b)) =~= xml_char(a[0])
            + xml_escaped(a.drop_first()) + xml_escaped(b));
    }
}

/// `s` escaped for XML text (paths may hold `&`, `<`, `>` and `"`).
pub fn escape_xml(s: &str) -> (r: String)
    ensures
        r@ == xml_escaped(s@),
{
    let v = chars_of(s);
    let mut out: Vec<char> = Vec::new();
    let mut i: usize = 0;
    assert(v@.take(0) =~= Seq::<char>::empty());
    while i < v.len()
        invariant
            i <= v@.len(),
            out@ == xml_escaped(v@.take(i as int)),
        decreases v@.len() - i,
    {
        let c = v[i];
        proof {
            let one = seq![c];
            lemma_xml_escaped_concat(v@.take(i as int), one);
            assert(v@.take(i + 1) =~= v@.take(i as int) + one);
            assert(one.drop_first() =~= Seq::<char>::empty());
            assert(one[0] == c);
            assert(xml_escaped(Seq::<char>::empty()) == Seq::<char>::empty());
            assert(xml_escaped(one) =~= xml_char(c));
        }
        if c == '&' {
            push_str(&mut out, "&amp;");
        } else if c == '<' {
            push_str(&mut out, "&lt;");
        } else if c == '>' {
            push_str(&mut out, "&gt;");
        } else if c == '"' {
            push_str(&mut out, "&quot;");
        } else {
            out.push(c);
            assert(out@ =~= xml_escaped(v@.take(i as int)) + seq![c]);
        }
        i = i + 1;
    }
    assert(v@.take(v@.len() as int) =~= v@);
    string_of(out.as_slice())
}

/// An escaped text holds no `<`, `>` or `"`: it cannot end the XML
/// element or attribute it is written into.
pub proof fn law_escape_xml_safe(s: Seq<char>)
    ensures
        !xml_escaped(s).contains('<'),
        !xml_escaped(s).contains('>'),
        !xml_escaped(s).contains('"'),
    decreases s.len(),
{
    reveal_strlit("&amp;");
    reveal_strlit("&lt;");
    reveal_strlit("&gt;");
    reveal_strlit("&quot;");
    if s.len() > 0 {
        law_escape_xml_safe(s.drop_first());
        let h = xml_char(s[0]);
        let t = xml_escaped(s.drop_first());
        let e = xml_escaped(s);
        assert(e == h + t);
        assert forall|c: char| c == '<' || c == '>' || c == '"' implies !e.contains(c) by {
            if e.contains(c) {
                let j = choose|j: int| 0 <= j < e.len() && e[j] == c;
                if j < h.len() {
                    assert(e[j] == h[j]);
                } else {
                    assert(e[j] == t[j - h.len()]);
                }
            }
        }
    }
}

/// Reading an escaped text as XML gives it back.
pub proof fn law_escape_xml_round_trip(s: Seq<char>)
    ensures
        xml_unescaped(xml_escaped(s)) == s,
    decreases s.len(),
{
    reveal_strlit("&amp;");
    reveal_strlit("&lt;");
    reveal_strlit("&gt;");
    reveal_strlit("&quot;");
    if s.len() > 0 {
        law_escape_xml_round_trip(s.drop_first());
        let c = s[0];
        let h = xml_char(c);
        let t = xml_escaped(s.drop_first());
        let e = xml_escaped(s);
        assert(e == h + t);
        assert(e.skip(h.len() as int) =~= t);
        assert forall|k: int| 0 <= k < h.len() implies e[k] == h[k] by {}
        if c == '&' {
            assert(e.take(5) =~= "&amp;"@);
        } else if c == '<' {
            assert(e.take(4) =~= "&lt;"@);
            if starts_with(e, "&amp;"@) {
                assert(e.take(5)[1] == e[1]);
            }
        } else if c == '>' {
            assert(e.take(4) =~= "&gt;"@);
            if starts_with(e, "&amp;"@) {
                assert(e.take(5)[1] == e[1]);
            }
            if starts_with(e, "&lt;"@) {
                assert(e.take(4)[1] == e[1]);
            }
        } else if c == '"' {
            assert(e.take(6) =~= "&quot;"@);
            if starts_with(e, "&amp;"@) {
                assert(e.take(5)[1] == e[1]);
            }
            if starts_with(e, "&lt;"@) {
                assert(e.take(4)[1] == e[1]);
            }
            if starts_with(e, "&gt;"@) {
                assert(e.take(4)[1] == e[1]);
            }
        } else {
            assert(e[0] == c);
            assert(e.drop_first() =~= t);
            if starts_with(e, "&amp;"@) {
                assert(e.take(5)[0] == e[0]);
            }
            if starts_with(e, "&lt;"@) {
                assert(e.take(4)[0] == e[0]);
            }
            if starts_with(e, "&gt;"@) {
                assert(e.take(4)[0] == e[0]);
            }
            if starts_with(e, "&quot;"@) {
                assert(e.take(6)[0] == e[0]);
            }
        }
        assert(s =~= seq![c] + s.drop_first());
    }
}

// ---------------------------------------------------------------------------
// The agent
// ---------------------------------------------------------------------------

/// The `<string>` line of one program argument, escaped.
pub open spec fn arg_line(a: Seq<char>) -> Seq<char> {
    "    <string>"@ + xml_escaped(a) + "</string>"@
}

/// The agent for `kind` at `version` that runs `args`, its output and
/// errors going to `log_dir`.
pub open spec fn plist_spec(kind: Seq<char>, version: Seq<char>, args: Seq<Seq<char>>, log_dir: Seq<char>) -> Seq<
    char,
> {
    "<?xml version=\"1.0\" encoding=\"UTF-8\"?>\n<!DOCTYPE plist PUBLIC \"-//Apple//DTD PLIST 1.0//EN\" \"http://www.apple.com/DTDs/PropertyList-1.0.dtd\">\n<plist version=\"1.0\">\n<dict>\n    <key>Label</key>\n    <string>"@
        + label_spec(kind, version) + "</string>\n    <key>ProgramArguments</key>\n    <array>\n"@ + join(
        args.map_values(|a: Seq<char>| arg_line(a)),
        '\n',
    )
        + "\n    </array>\n    <key>RunAtLoad</key>\n    <true/>\n    <key>KeepAlive</key>\n    <true/>\n    <key>StandardOutPath</key>\n    <string>"@
        + log_dir + "/"@ + kind + "-"@ + version + ".launchd.out</string>\n    <key>StandardErrorPath</key>\n    <string>"@
        + log_dir + "/"@ + kind + "-"@ + version
        + ".launchd.err</string>\n    <key>WorkingDirectory</key>\n    <string>/</string>\n</dict>\n</plist>\n"@
}

/// Every agent is started at login and kept alive: right after its
/// program arguments the agent sets `RunAtLoad` and `KeepAlive` to true,
/// whatever the service, version, arguments and log directory.
pub proof fn law_agent_runs_at_load(kind: Seq<char>, version: Seq<char>, args: Seq<Seq<char>>, log_dir: Seq<char>)
    ensures
        is_piece(
            "</array>\n    <key>RunAtLoad</key>\n    <true/>\n    <key>KeepAlive</key>\n    <true/>"@,
            plist_spec(kind, version, args, log_dir),
        ),
{
    let a = "<?xml version=\"1.0\" encoding=\"UTF-8\"?>\n<!DOCTYPE plist PUBLIC \"-//Apple//DTD PLIST 1.0//EN\" \"http://www.apple.com/DTDs/PropertyList-1.0.dtd\">\n<plist version=\"1.0\">\n<dict>\n    <key>Label</key>\n    <string>"@;
    let b = "</string>\n    <key>ProgramArguments</key>\n    <array>\n"@;
    let c = "\n    </array>\n    <key>RunAtLoad</key>\n    <true/>\n    <key>KeepAlive</key>\n    <true/>\n    <key>StandardOutPath</key>\n    <string>"@;
    let t = "</array>\n    <key>RunAtLoad</key>\n    <true/>\n    <key>KeepAlive</key>\n    <true/>"@;
    reveal_strlit("\n    </array>\n    <key>RunAtLoad</key>\n    <true/>\n    <key>KeepAlive</key>\n    <true/>\n    <key>StandardOutPath</key>\n    <string>");
    reveal_strlit("</array>\n    <key>RunAtLoad</key>\n    <true/>\n    <key>KeepAlive</key>\n    <true/>");
    let x = plist_spec(kind, version, args, log_dir);
    let pre = a + label_spec(kind, version) + b + join(args.map_values(|l: Seq<char>| arg_line(l)), '\n');
    let rest = log_dir + "/"@ + kind + "-"@ + version + ".launchd.out</string>\n    <key>StandardErrorPath</key>\n    <string>"@
        + log_dir + "/"@ + kind + "-"@ + version
        + ".launchd.err</string>\n    <key>WorkingDirectory</key>\n    <string>/</string>\n</dict>\n</plist>\n"@;
    assert(x =~= pre + (c + rest));
    let n: int = t.len() as int;
    assert(c.subrange(5, 5 + n) =~= t);
    let at: int = pre.len() + 5int;
    assert(x.subrange(at, at + n) =~= t) by {
        assert forall|i: int| 0 <= i < t.len() implies #[trigger] x.subrange(at, at + n)[i] == t[i] by {
            assert(x[at + i] == (c + rest)[5 + i]);
            assert((c + rest)[5 + i] == c[5 + i]);
            assert(c.subrange(5, 5 + n)[i] == c[5 + i]);
        }
    }
    lemma_piece_at(t, x, at);
}

/// The agent for `kind` at `version` that runs `program_args`.
pub fn plist_content(kind: &str, version: &str, program_args: &Vec<String>, log_dir: &str) -> (r: String)
    ensures
        r@ == plist_spec(kind@, version@, strs_of(program_args@), log_dir@),
{
    let mut lines: Vec<Vec<char>> = Vec::new();
    let mut i: usize = 0;
    while i < program_args.len()
        invariant
            i <= program_args@.len(),
            lines@.len() == i,
            forall|j: int| 0 <= j < i ==> #[trigger] lines@[j]@ == arg_line(program_args@[j]@),
        decreases program_args@.len() - i,
    {
        let mut l = chars_of("    <string>");
        push_str(&mut l, escape_xml(program_args[i].as_str()).as_str());
        push_str(&mut l, "</string>");
        lines.push(l);
        i = i + 1;
    }
    assert(seqs_of(lines@) =~= strs_of(program_args@).map_values(|a: Seq<char>| arg_line(a)));
    let args_xml = join_with(&lines, '\n');
    let mut s = chars_of(
        "<?xml version=\"1.0\" encoding=\"UTF-8\"?>\n<!DOCTYPE plist PUBLIC \"-//Apple//DTD PLIST 1.0//EN\" \"http://www.apple.com/DTDs/PropertyList-1.0.dtd\">\n<plist version=\"1.0\">\n<dict>\n    <key>Label</key>\n    <string>",
    );
    push_str(&mut s, label(kind, version).as_str());
    push_str(&mut s, "</string>\n    <key>ProgramArguments</key>\n    <array>\n");
    push_all(&mut s, args_xml.as_slice());
    push_str(
        &mut s,
        "\n    </array>\n    <key>RunAtLoad</key>\n    <true/>\n    <key>KeepAlive</key>\n    <true/>\n    <key>StandardOutPath</key>\n    <string>",
    );
    push_str(&mut s, log_dir);
    push_str(&mut s, "/");
    push_str(&mut s, kind);
    push_str(&mut s, "-");
    push_str(&mut s, version);
    push_str(&mut s, ".launchd.out</string>\n    <key>StandardErrorPath</key>\n    <string>");
    push_str(&mut s, log_dir);
    push_str(&mut s, "/");
    push_str(&mut s, kind);
    push_str(&mut s, "-");
    push_str(&mut s, version);
    push_str(&mut s, ".launchd.err</string>\n    <key>WorkingDirectory</key>\n    <string>/</string>\n</dict>\n</plist>\n");
    string_of(s.as_slice())
}

/// The launchd domain of the user `uid`: `gui/<uid>`.
pub open spec fn domain_spec(uid: u32) -> Seq<char> {
    "gui/"@ + decimal(uid as nat)
}

/// The launchd domain of the user `uid`.
pub fn domain(uid: u32) -> (r: String)
    ensures
        r@ == domain_spec(uid),
{
    let mut s = chars_of("gui/");
    push_decimal(&mut s, uid as u64);
    string_of(s.as_slice())
}

/// The service of the agent of `kind` at `version` in the domain of `uid`:
/// `gui/<uid>/<label>`.
pub fn target(uid: u32, kind: &str, version: &str) -> (r: String)
    ensures
        r@ == domain_spec(uid) + "/"@ + label_spec(kind@, version@),
{
    let mut s = chars_of("gui/");
    push_decimal(&mut s, uid as u64);
    push_str(&mut s, "/");
    let l = label(kind, version);
    push_str(&mut s, l.as_str());
    string_of(s.as_slice())
}

} // verus!

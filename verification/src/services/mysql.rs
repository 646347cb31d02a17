//! MySQL: its `my.cnf`, the built-in version table and download address,
//! the order of versions, and the decisions around a change of
//! configuration.
//!
//! Layout under `~/.novaenv`: programs in `services/mysql/<version>`, the
//! configuration in `services/mysql/<version>/my.cnf`, data in
//! `data/mysql/<version>`, the log in `logs/mysql-<version>.log`, the pid in
//! `run/mysql-<version>.pid`, the socket in `run/mysql-<version>.sock`.
use std::cmp::Ordering;
use vstd::prelude::*;
use crate::activation::{ps_escape, ps_escaped, Platform};
use crate::installer::std_ordering;
use crate::models::{AvailableVersionGroup, ServiceConfig, ServiceInfo, ServiceKind};
use crate::order::{dotted_order, order_dotted, stable_sort, Order};
use crate::services::{flat_groups, group_flat, tail_spec};
use crate::sorting::{dotted_newer_first, dotted_older_first, group_views, relation_of, sort_versions, VersionSort};
use crate::text::{
    chars_of, decimal, join, join_with, lines, lines_of, owned, parse_uint, parse_unsigned, push_decimal,
    push_str, same, seqs_of, split, split_at_char, split_once, split_once_at, string_of, strip_end_all,
    strip_end_chars, strip_start_all, strs_of, trim, trim_chars, lemma_split_nonempty, trim_end, trim_start,
    is_ws, strip_cr, lemma_find_char_at, lemma_trim_end_prefix, lemma_trim_exact, lemma_lines_first,
    lemma_decimal_parses, lemma_lines_empty,
};

verus! {

/// The name shown for MySQL.
pub const NAME: &'static str = "MySQL";

/// The port MySQL listens on unless configured otherwise.
pub const DEFAULT_PORT: u16 = 3306;

// ---------------------------------------------------------------------------
// my.cnf
// ---------------------------------------------------------------------------

/// The port and whether the `[mysqld]` section is open after one line of
/// `my.cnf`: blank lines and comments change nothing, a `[name]` line opens
/// a section, and inside `[mysqld]` a `port=N` line sets the port when `N`
/// reads as a `u16`.
pub open spec fn cnf_line(st: (u16, bool), line: Seq<char>) -> (u16, bool) {
    let t = trim(line);
    if t.len() == 0 || t[0] == '#' {
        st
    } else if t[0] == '[' {
        (st.0, strip_end_all(strip_start_all(t, '['), ']') == "mysqld"@)
    } else if !st.1 {
        st
    } else {
        match split_once(t, '=') {
            None => st,
            Some(kv) => if trim(kv.0) == "port"@ {
                match parse_uint(trim(kv.1), 65535) {
                    Some(p) => (p as u16, st.1),
                    None => st,
                }
            } else {
                st
            },
        }
    }
}

/// The port and section state after the lines `ls`.
pub open spec fn cnf_of(ls: Seq<Seq<char>>) -> (u16, bool)
    decreases ls.len(),
{
    if ls.len() == 0 {
        (DEFAULT_PORT, false)
    } else {
        cnf_line(cnf_of(ls.drop_last()), ls.last())
    }
}

/// The port that `my.cnf` holding `content` sets in its `[mysqld]`
/// section (the last setting winning), else the default.
pub open spec fn cnf_port(content: Seq<char>) -> u16 {
    cnf_of(lines(content)).0
}

/// Reads the port of a `my.cnf`; the password is never stored there.
pub fn parse_conf(content: &str) -> (r: ServiceConfig)
    ensures
        r.port == cnf_port(content@),
        r.password@ == Seq::<char>::empty(),
        r.old_password@ == Seq::<char>::empty(),
{
    let c = chars_of(content);
    let ls = lines_of(c.as_slice());
    let port_key = chars_of("port");
    let section = chars_of("mysqld");
    let mut port: u16 = DEFAULT_PORT;
    let mut in_mysqld = false;
    let mut i: usize = 0;
    let ghost all = seqs_of(ls@);
    assert(all.take(0) =~= Seq::<Seq<char>>::empty());
    while i < ls.len()
        invariant
            i <= ls@.len(),
            all == seqs_of(ls@),
            all == lines(content@),
            port_key@ == "port"@,
            section@ == "mysqld"@,
            (port, in_mysqld) == cnf_of(all.take(i as int)),
        decreases ls@.len() - i,
    {
        proof {
            let t = all.take(i + 1);
            assert(t.drop_last() =~= all.take(i as int));
            assert(t.last() == ls@[i as int]@);
        }
        let t = trim_chars(ls[i].as_slice());
        if t.len() == 0 || t[0] == '#' {
        } else if t[0] == '[' {
            let inner = section_name(&t);
            in_mysqld = same(inner.as_slice(), section.as_slice());
        } else if in_mysqld {
            match split_once_at(t.as_slice(), '=') {
                Some((k, v)) => {
                    let key = trim_chars(k.as_slice());
                    if same(key.as_slice(), port_key.as_slice()) {
                        let val = trim_chars(v.as_slice());
                        match parse_unsigned(val.as_slice(), 65535) {
                            Some(p) => {
                                port = p as u16;
                            },
                            None => {},
                        }
                    }
                },
                None => {},
            }
        }
        i = i + 1;
    }
    assert(all.take(ls@.len() as int) =~= all);
    ServiceConfig { port, password: String::new(), old_password: String::new() }
}

/// The name of a section line: without its leading `[` and trailing `]`.
fn section_name(t: &Vec<char>) -> (r: Vec<char>)
    ensures
        r@ == strip_end_all(strip_start_all(t@, '['), ']'),
{
    let mut a: usize = 0;
    assert(t@.skip(0) =~= t@);
    while a < t.len() && t[a] == '['
        invariant
            a <= t@.len(),
            strip_start_all(t@, '[') == strip_start_all(t@.skip(a as int), '['),
        decreases t@.len() - a,
    {
        assert(t@.skip(a as int)[0] == t@[a as int]);
        assert(t@.skip(a as int).drop_first() =~= t@.skip(a + 1));
        a = a + 1;
    }
    proof {
        if a < t@.len() {
            assert(t@.skip(a as int)[0] == t@[a as int]);
        }
    }
    strip_end_chars(slice_from(t, a).as_slice(), ']')
}

/// `v` from index `a` on.
fn slice_from(v: &Vec<char>, a: usize) -> (r: Vec<char>)
    requires
        a <= v@.len(),
    ensures
        r@ == v@.skip(a as int),
{
    let r = crate::text::slice(v.as_slice(), a, v.len());
    assert(r@ =~= v@.skip(a as int));
    r
}

/// The `my.cnf` written for a version.
pub open spec fn cnf_text_spec(
    port: u16,
    data_dir: Seq<char>,
    socket: Seq<char>,
    log_file: Seq<char>,
    pid_file: Seq<char>,
) -> Seq<char> {
    "[mysqld]\nport="@ + decimal(port as nat) + "\ndatadir="@ + data_dir + "\nsocket="@ + socket
        + "\nlog_error="@ + log_file + "\npid-file="@ + pid_file + "\n"@
}

/// A line that changes neither the port nor the section.
pub open spec fn cnf_neutral(line: Seq<char>) -> bool {
    forall|st: (u16, bool)| #[trigger] cnf_line(st, line) == st
}

/// A line `k=...` for a setting `k` other than the port changes nothing,
/// nor does it once a carriage return is cut from its end.
proof fn lemma_setting_neutral(k: Seq<char>, rest: Seq<char>)
    requires
        k.len() > 0,
        k[0] != '#',
        k[0] != '[',
        forall|i: int| 0 <= i < k.len() ==> !is_ws(#[trigger] k[i]) && k[i] != '=',
        k != "port"@,
    ensures
        cnf_neutral(strip_cr(k + seq!['='] + rest)),
{
    let full = k + seq!['='] + rest;
    let line = strip_cr(full);
    let n = k.len() as int;
    assert(line.len() > n);
    assert(line.take(n) =~= k);
    assert(line[n] == '=');
    assert(line[0] == k[0]);
    assert(trim_start(line) == line);
    lemma_trim_end_prefix(line);
    let t = trim(line);
    assert(t.len() > n) by {
        if t.len() <= n {
            assert(is_ws(line[n]));
        }
    }
    assert forall|i: int| 0 <= i < n implies t[i] == k[i] by {
        assert(line.take(n)[i] == line[i]);
    }
    assert(t[n] == '=');
    assert forall|j: int| 0 <= j < n implies t[j] != '=' by {}
    lemma_find_char_at(t, '=', n);
    assert(t.take(n) =~= k);
    lemma_trim_exact(k);
    assert forall|st: (u16, bool)| #[trigger] cnf_line(st, line) == st by {}
}

/// The section line opens `[mysqld]`; the port line then sets the port.
proof fn lemma_cnf_head(port: u16)
    ensures
        forall|st: (u16, bool)| #[trigger] cnf_line(st, "[mysqld]"@) == (st.0, true),
        forall|st: (u16, bool)| st.1 ==> #[trigger] cnf_line(st, "port="@ + decimal(port as nat)) == (port, true),
        strip_cr("[mysqld]"@) == "[mysqld]"@,
        strip_cr("port="@ + decimal(port as nat)) == "port="@ + decimal(port as nat),
        !"[mysqld]"@.contains('\n'),
        !("port="@ + decimal(port as nat)).contains('\n'),
{
    reveal_strlit("[mysqld]");
    reveal_strlit("mysqld");
    reveal_strlit("port=");
    reveal_strlit("port");
    let h = "[mysqld]"@;
    lemma_trim_exact(h);
    assert(strip_start_all(h, '[') == strip_start_all(h.drop_first(), '['));
    assert(h.drop_first()[0] == 'm');
    let m = h.drop_first();
    assert(strip_start_all(m, '[') == m);
    assert(strip_end_all(m, ']') == strip_end_all(m.drop_last(), ']'));
    assert(m.drop_last() =~= "mysqld"@);
    assert(strip_end_all(m.drop_last(), ']') == m.drop_last());
    if h.contains('\n') {
        let j = choose|j: int| 0 <= j < h.len() && h[j] == '\n';
        assert(h[j] != '\n');
    }
    let d = decimal(port as nat);
    lemma_decimal_parses(port as nat, 65535);
    let l = "port="@ + d;
    assert(l[0] == 'p');
    assert(l.last() == d.last());
    lemma_trim_exact(l);
    lemma_trim_exact(d);
    assert(l[4] == '=');
    assert forall|j: int| 0 <= j < 4 implies l[j] != '=' by {}
    lemma_find_char_at(l, '=', 4);
    assert(l.take(4) =~= "port"@);
    assert(l.skip(5) =~= d);
    lemma_trim_exact("port"@);
    if l.contains('\n') {
        let j = choose|j: int| 0 <= j < l.len() && l[j] == '\n';
        if j >= 5 {
            assert(l[j] == d[j - 5]);
        }
    }
    assert forall|st: (u16, bool)| #[trigger] cnf_line(st, h) == (st.0, true) by {}
    assert forall|st: (u16, bool)| st.1 implies #[trigger] cnf_line(st, l) == (port, true) by {}
}

/// A section line `[name]` for any section other than `[mysqld]` closes the
/// `[mysqld]` section, whatever was read before; `[mysqld]` opens it.
pub proof fn law_other_section_closes(st: (u16, bool), name: Seq<char>)
    requires
        name.len() > 0,
        name != "mysqld"@,
        forall|i: int| 0 <= i < name.len() ==> #[trigger] name[i] != '[' && name[i] != ']' && !is_ws(name[i]),
    ensures
        cnf_line(st, "["@ + name + "]"@) == (st.0, false),
        cnf_line(st, "[mysqld]"@) == (st.0, true),
{
    reveal_strlit("[");
    reveal_strlit("]");
    lemma_cnf_head(0);
    let h = "["@ + name + "]"@;
    assert(h[0] == '[');
    assert(h.last() == ']');
    lemma_trim_exact(h);
    let m = h.drop_first();
    assert(m =~= name + seq![']']);
    assert(strip_start_all(h, '[') == strip_start_all(m, '['));
    assert(m[0] == name[0]);
    assert(strip_start_all(m, '[') == m);
    assert(m.last() == ']');
    assert(m.drop_last() =~= name);
    assert(strip_end_all(m, ']') == strip_end_all(name, ']'));
    assert(name.last() == name[name.len() - 1]);
    assert(strip_end_all(name, ']') == name);
}

/// A `port=` line outside `[mysqld]` changes nothing.
proof fn lemma_port_line_outside(st: (u16, bool), port: u16)
    requires
        !st.1,
    ensures
        cnf_line(st, "port="@ + decimal(port as nat)) == st,
{
    reveal_strlit("port=");
    lemma_decimal_parses(port as nat, 65535);
    let d = decimal(port as nat);
    let l = "port="@ + d;
    assert(l[0] == 'p');
    assert(l.last() == d.last());
    lemma_trim_exact(l);
}

/// Only the `[mysqld]` section sets the port: after `[mysqld]`,
/// `port=a`, a line opening another section and `port=b`, the port is
/// `a`, for every `a`, `b` and other section.
pub proof fn law_mysqld_section_only(a: u16, b: u16, name: Seq<char>)
    requires
        name.len() > 0,
        name != "mysqld"@,
        forall|i: int| 0 <= i < name.len() ==> #[trigger] name[i] != '[' && name[i] != ']' && !is_ws(name[i]),
    ensures
        cnf_of(seq!["[mysqld]"@, "port="@ + decimal(a as nat), "["@ + name + "]"@, "port="@ + decimal(b as nat)]).0
            == a,
{
    lemma_cnf_head(a);
    let ls = seq!["[mysqld]"@, "port="@ + decimal(a as nat), "["@ + name + "]"@, "port="@ + decimal(b as nat)];
    let s0 = cnf_of(Seq::<Seq<char>>::empty());
    assert(ls.take(1).drop_last() =~= Seq::<Seq<char>>::empty());
    assert(ls.take(2).drop_last() =~= ls.take(1));
    assert(ls.take(3).drop_last() =~= ls.take(2));
    assert(ls.drop_last() =~= ls.take(3));
    let s1 = cnf_of(ls.take(1));
    assert(s1 == cnf_line(s0, "[mysqld]"@));
    let s2 = cnf_of(ls.take(2));
    assert(s2 == (a, true));
    law_other_section_closes(s2, name);
    let s3 = cnf_of(ls.take(3));
    assert(s3 == (a, false));
    lemma_port_line_outside(s3, b);
}

/// Lines that change nothing leave the state of the lines before them.
proof fn lemma_cnf_neutral_tail(ls: Seq<Seq<char>>, tail: Seq<Seq<char>>)
    requires
        forall|i: int| 0 <= i < tail.len() ==> cnf_neutral(#[trigger] tail[i]),
    ensures
        cnf_of(ls + tail) == cnf_of(ls),
    decreases tail.len(),
{
    if tail.len() == 0 {
        assert(ls + tail =~= ls);
    } else {
        let t = tail.drop_last();
        assert forall|i: int| 0 <= i < t.len() implies cnf_neutral(#[trigger] t[i]) by {
            assert(t[i] == tail[i]);
        }
        lemma_cnf_neutral_tail(ls, t);
        assert((ls + tail).drop_last() =~= ls + t);
        assert((ls + tail).last() == tail.last());
        assert(cnf_neutral(tail[tail.len() - 1]));
        assert(cnf_line(cnf_of(ls + t), tail.last()) == cnf_of(ls + t));
    }
}

/// Two texts without line feeds make one without.
proof fn lemma_no_lf_concat(a: Seq<char>, b: Seq<char>)
    requires
        !a.contains('\n'),
        !b.contains('\n'),
    ensures
        !(a + b).contains('\n'),
{
    if (a + b).contains('\n') {
        let j = choose|j: int| 0 <= j < (a + b).len() && (a + b)[j] == '\n';
        if j < a.len() {
            assert(a[j] == '\n');
        } else {
            assert(b[j - a.len()] == '\n');
        }
    }
}

/// A setting word: no white space, no `=`, and none of `#`, `[` first.
proof fn lemma_setting_word(k: Seq<char>)
    requires
        k == "datadir"@ || k == "socket"@ || k == "log_error"@ || k == "pid-file"@,
    ensures
        k.len() > 0,
        k[0] != '#',
        k[0] != '[',
        forall|i: int| 0 <= i < k.len() ==> !is_ws(#[trigger] k[i]) && k[i] != '=',
        k != "port"@,
        !(k + seq!['=']).contains('\n'),
{
    reveal_strlit("datadir");
    reveal_strlit("socket");
    reveal_strlit("log_error");
    reveal_strlit("pid-file");
    reveal_strlit("port");
    assert("port"@[0] == 'p');
    let ke = k + seq!['='];
    if ke.contains('\n') {
        let j = choose|j: int| 0 <= j < ke.len() && ke[j] == '\n';
        if j < k.len() {
            assert(ke[j] == k[j]);
        }
    }
}

/// What a written `my.cnf` reads back: the port it was written with,
/// whatever paths it names, as long as none holds a line feed.
#[verifier::rlimit(60)]
#[verifier::spinoff_prover]
pub proof fn law_cnf_reads_back(
    port: u16,
    data_dir: Seq<char>,
    socket: Seq<char>,
    log_file: Seq<char>,
    pid_file: Seq<char>,
)
    requires
        !data_dir.contains('\n'),
        !socket.contains('\n'),
        !log_file.contains('\n'),
        !pid_file.contains('\n'),
    ensures
        cnf_port(cnf_text_spec(port, data_dir, socket, log_file, pid_file)) == port,
{
    reveal_strlit("[mysqld]\nport=");
    reveal_strlit("\ndatadir=");
    reveal_strlit("\nsocket=");
    reveal_strlit("\nlog_error=");
    reveal_strlit("\npid-file=");
    reveal_strlit("\n");
    reveal_strlit("[mysqld]");
    reveal_strlit("port=");
    reveal_strlit("datadir");
    reveal_strlit("socket");
    reveal_strlit("log_error");
    reveal_strlit("pid-file");
    let nl = seq!['\n'];
    let eq = seq!['='];
    let l0 = "[mysqld]"@;
    let l1 = "port="@ + decimal(port as nat);
    let l2 = "datadir"@ + eq + data_dir;
    let l3 = "socket"@ + eq + socket;
    let l4 = "log_error"@ + eq + log_file;
    let l5 = "pid-file"@ + eq + pid_file;
    let e = Seq::<char>::empty();
    let s5 = l5 + nl + e;
    let s4 = l4 + nl + s5;
    let s3 = l3 + nl + s4;
    let s2 = l2 + nl + s3;
    let s1 = l1 + nl + s2;
    let s0 = l0 + nl + s1;
    assert(cnf_text_spec(port, data_dir, socket, log_file, pid_file) =~= s0);
    lemma_cnf_head(port);
    lemma_setting_word("datadir"@);
    lemma_setting_word("socket"@);
    lemma_setting_word("log_error"@);
    lemma_setting_word("pid-file"@);
    lemma_no_lf_concat("datadir"@ + eq, data_dir);
    lemma_no_lf_concat("socket"@ + eq, socket);
    lemma_no_lf_concat("log_error"@ + eq, log_file);
    lemma_no_lf_concat("pid-file"@ + eq, pid_file);
    lemma_lines_first(l0, s1);
    lemma_lines_first(l1, s2);
    lemma_lines_first(l2, s3);
    lemma_lines_first(l3, s4);
    lemma_lines_first(l4, s5);
    lemma_lines_first(l5, e);
    lemma_lines_empty();
    lemma_setting_neutral("datadir"@, data_dir);
    lemma_setting_neutral("socket"@, socket);
    lemma_setting_neutral("log_error"@, log_file);
    lemma_setting_neutral("pid-file"@, pid_file);
    let n = seq![strip_cr(l2), strip_cr(l3), strip_cr(l4), strip_cr(l5)];
    assert forall|i: int| 0 <= i < n.len() implies cnf_neutral(#[trigger] n[i]) by {}
    let head = seq![l0, l1];
    assert(lines(s0) =~= head + n);
    lemma_cnf_neutral_tail(head, n);
    assert(head.drop_last() =~= seq![l0]);
    assert(seq![l0].drop_last() =~= Seq::<Seq<char>>::empty());
    assert(cnf_of(Seq::<Seq<char>>::empty()) == (DEFAULT_PORT, false));
    assert(cnf_of(seq![l0]) == cnf_line(cnf_of(seq![l0].drop_last()), l0));
    assert(cnf_of(seq![l0]) == (DEFAULT_PORT, true));
    assert(cnf_of(head) == cnf_line(cnf_of(head.drop_last()), head.last()));
    assert(cnf_of(head) == (port, true));
}

/// The `my.cnf` written for a version.
pub fn conf_text(port: u16, data_dir: &str, socket: &str, log_file: &str, pid_file: &str) -> (r: String)
    ensures
        r@ == cnf_text_spec(port, data_dir@, socket@, log_file@, pid_file@),
{
    let mut s = chars_of("[mysqld]\nport=");
    push_decimal(&mut s, port as u64);
    push_str(&mut s, "\ndatadir=");
    push_str(&mut s, data_dir);
    push_str(&mut s, "\nsocket=");
    push_str(&mut s, socket);
    push_str(&mut s, "\nlog_error=");
    push_str(&mut s, log_file);
    push_str(&mut s, "\npid-file=");
    push_str(&mut s, pid_file);
    push_str(&mut s, "\n");
    string_of(s.as_slice())
}

// ---------------------------------------------------------------------------
// Versions
// ---------------------------------------------------------------------------

/// Compares two versions by their dotted fields (`9.0.1 > 8.4.6`).
pub fn cmp_versions(a: &str, b: &str) -> (r: Ordering)
    ensures
        r == std_ordering(dotted_order(a@, b@)),
{
    let ca = chars_of(a);
    let cb = chars_of(b);
    match order_dotted(ca.as_slice(), cb.as_slice()) {
        Order::Less => Ordering::Less,
        Order::Equal => Ordering::Equal,
        Order::Greater => Ordering::Greater,
    }
}

/// The versions known to exist on the official download site, with the
/// macOS release their package names carry.
pub open spec fn known_spec() -> Seq<(Seq<char>, Seq<char>)> {
    seq![("8.4.0"@, "macos14"@), ("9.0.1"@, "macos14"@)]
}

/// The versions known to exist on the official download site.
pub fn known_versions() -> (r: Vec<(String, String)>)
    ensures
        r@.len() == known_spec().len(),
        forall|i: int| 0 <= i < r@.len() ==> (#[trigger] r@[i]).0@ == known_spec()[i].0 && r@[i].1@
            == known_spec()[i].1,
{
    let mut r: Vec<(String, String)> = Vec::new();
    r.push((owned("8.4.0"), owned("macos14")));
    r.push((owned("9.0.1"), owned("macos14")));
    r
}

/// The macOS releases tried in turn for a version that is not known.
pub open spec fn macos_tags() -> Seq<Seq<char>> {
    seq!["macos15"@, "macos14"@, "macos13"@, "macos12"@]
}

/// The versions that can be installed, newest first, grouped by major
/// version (so the newest major comes first); the group of 8.4 is
/// long-term supported.
pub fn available_version_groups() -> (r: Result<Vec<AvailableVersionGroup>, String>)
    ensures
        r matches Ok(g) && group_views(g@) == flat_groups(
            stable_sort(known_spec().map_values(|k: (Seq<char>, Seq<char>)| k.0), dotted_newer_first()),
            Some("8.4"@),
        ),
{
    let known = known_versions();
    let mut vs: Vec<String> = Vec::new();
    let mut i: usize = 0;
    while i < known.len()
        invariant
            i <= known@.len(),
            known@.len() == known_spec().len(),
            forall|j: int| 0 <= j < known@.len() ==> (#[trigger] known@[j]).0@ == known_spec()[j].0,
            vs@.len() == i,
            forall|j: int| 0 <= j < i ==> (#[trigger] vs@[j])@ == known_spec()[j].0,
        decreases known@.len() - i,
    {
        vs.push(known[i].0.clone());
        i = i + 1;
    }
    assert(strs_of(vs@) =~= known_spec().map_values(|k: (Seq<char>, Seq<char>)| k.0));
    let sorted = sort_versions(&vs, VersionSort::DottedNewestFirst);
    Ok(group_flat(&sorted, Some("8.4")))
}

/// The first two dotted fields of `version` (the directory of the
/// download site).
pub open spec fn series(version: Seq<char>) -> Seq<char> {
    let ps = split(version, '.');
    join(if ps.len() >= 2 {
        ps.take(2)
    } else {
        ps
    }, '.')
}

/// The package address of `version` for the macOS release `tag`.
pub open spec fn package_url(version: Seq<char>, tag: Seq<char>) -> Seq<char> {
    "https://cdn.mysql.com/Downloads/MySQL-"@ + series(version) + "/mysql-"@ + version + "-"@ + tag
        + "-arm64.tar.gz"@
}

/// The package address of `version` for `tag`.
pub fn package_url_of(version: &str, tag: &str) -> (r: String)
    ensures
        r@ == package_url(version@, tag@),
{
    let v = chars_of(version);
    let mut ps = split_at_char(v.as_slice(), '.');
    proof {
        lemma_split_nonempty(v@, '.');
    }
    if ps.len() >= 2 {
        ps.truncate(2);
        assert(seqs_of(ps@) =~= split(v@, '.').take(2));
    }
    let major = join_with(&ps, '.');
    let mut s = chars_of("https://cdn.mysql.com/Downloads/MySQL-");
    crate::text::push_all(&mut s, major.as_slice());
    push_str(&mut s, "/mysql-");
    push_str(&mut s, version);
    push_str(&mut s, "-");
    push_str(&mut s, tag);
    push_str(&mut s, "-arm64.tar.gz");
    string_of(s.as_slice())
}

/// The addresses tried in turn for a version that is not known.
pub fn probe_urls(version: &str) -> (r: Vec<String>)
    ensures
        strs_of(r@) == macos_tags().map_values(|t: Seq<char>| package_url(version@, t)),
{
    let mut r: Vec<String> = Vec::new();
    r.push(package_url_of(version, "macos15"));
    r.push(package_url_of(version, "macos14"));
    r.push(package_url_of(version, "macos13"));
    r.push(package_url_of(version, "macos12"));
    assert(strs_of(r@) =~= macos_tags().map_values(|t: Seq<char>| package_url(version@, t)));
    r
}

/// The index of the first known version equal to `version`.
pub open spec fn known_tag(version: Seq<char>) -> Option<Seq<char>> {
    if version == known_spec()[0].0 {
        Some(known_spec()[0].1)
    } else if version == known_spec()[1].0 {
        Some(known_spec()[1].1)
    } else {
        None
    }
}

/// The first index of `found` that is true.
pub open spec fn first_true(found: Seq<bool>) -> Option<int>
    decreases found.len(),
{
    if found.len() == 0 {
        None
    } else if found[0] {
        Some(0)
    } else {
        match first_true(found.drop_first()) {
            Some(i) => Some(i + 1),
            None => None,
        }
    }
}

/// What `first_true` returns.
proof fn lemma_first_true(found: Seq<bool>)
    ensures
        match first_true(found) {
            Some(i) => 0 <= i < found.len() && found[i],
            None => forall|j: int| 0 <= j < found.len() ==> !found[j],
        },
    decreases found.len(),
{
    if found.len() > 0 && !found[0] {
        lemma_first_true(found.drop_first());
        assert forall|j: int| 0 < j < found.len() implies found[j] == found.drop_first()[j - 1] by {}
    }
}

/// Where `version` is downloaded from: a known version's recorded package;
/// otherwise the first probed address that exists (`found[i]` tells
/// whether the `i`-th address of `probe_urls` does), else an error.
pub open spec fn download_url_spec(version: Seq<char>, found: Seq<bool>) -> Result<Seq<char>, Seq<char>> {
    match known_tag(version) {
        Some(t) => Ok(package_url(version, t)),
        None => match first_true(found) {
            Some(i) if i < macos_tags().len() => Ok(package_url(version, macos_tags()[i])),
            _ => Err("未找到 MySQL "@ + version + " 的 macOS arm64 官方包（探测失败）"@),
        },
    }
}

/// Where `version` is downloaded from.
pub fn resolve_download_url(version: &str, found: &Vec<bool>) -> (r: Result<String, String>)
    ensures
        match download_url_spec(version@, found@) {
            Ok(u) => r matches Ok(s) && s@ == u,
            Err(e) => r matches Err(m) && m@ == e,
        },
{
    let known = known_versions();
    let mut k: usize = 0;
    while k < known.len()
        invariant
            k <= known@.len(),
            known@.len() == known_spec().len(),
            forall|j: int| 0 <= j < known@.len() ==> (#[trigger] known@[j]).0@ == known_spec()[j].0 && known@[j].1@
                == known_spec()[j].1,
            forall|j: int| 0 <= j < k ==> known_spec()[j].0 != version@,
        decreases known@.len() - k,
    {
        let cv = chars_of(version);
        let ck = chars_of(known[k].0.as_str());
        if same(cv.as_slice(), ck.as_slice()) {
            assert(known_spec()[k as int].0 == version@);
            assert(k == 0 || known_spec()[0].0 != version@);
            return Ok(package_url_of(version, known[k].1.as_str()));
        }
        k = k + 1;
    }
    assert(known_spec()[0].0 != version@ && known_spec()[1].0 != version@);
    assert(known_tag(version@) is None);
    let urls = probe_urls(version);
    let mut i: usize = 0;
    assert(strs_of(urls@).len() == urls@.len());
    assert(found@.skip(0) =~= found@);
    assert(first_true(found@) == (match first_true(found@.skip(0)) {
        Some(x) => Some(x + 0),
        None => None,
    }));
    while i < found.len() && i < urls.len()
        invariant
            i <= found@.len(),
            urls@.len() == macos_tags().len(),
            known_tag(version@) is None,
            strs_of(urls@) == macos_tags().map_values(|t: Seq<char>| package_url(version@, t)),
            forall|j: int| 0 <= j < i ==> !found@[j],
            first_true(found@) == (match first_true(found@.skip(i as int)) {
                Some(x) => Some(x + i),
                None => None,
            }),
        decreases found@.len() - i,
    {
        proof {
            let t = found@.skip(i as int);
            assert(t[0] == found@[i as int]);
            assert(t.drop_first() =~= found@.skip(i + 1));
        }
        if found[i] {
            proof {
                assert(known_tag(version@) is None);
                assert(first_true(found@.skip(i as int)) == Some(0int));
                assert(strs_of(urls@)[i as int] == macos_tags().map_values(|t: Seq<char>| package_url(version@, t))[i as int]);
            }
            assert(strs_of(urls@)[i as int] == urls@[i as int]@);
            return Ok(urls[i].clone());
        }
        i = i + 1;
    }
    proof {
        if i >= found@.len() {
            assert(found@.skip(i as int).len() == 0);
        } else {
            lemma_first_true(found@.skip(i as int));
        }
    }
    let mut m = chars_of("未找到 MySQL ");
    push_str(&mut m, version);
    push_str(&mut m, " 的 macOS arm64 官方包（探测失败）");
    Err(string_of(m.as_slice()))
}

/// The newest installed version (the last of the newest when equal by
/// dotted fields), if any.
pub open spec fn latest_spec(versions: Seq<Seq<char>>) -> Option<Seq<char>> {
    let s = stable_sort(versions, dotted_older_first());
    if s.len() == 0 {
        None
    } else {
        Some(s.last())
    }
}

/// The newest installed version.
pub fn latest_installed(versions: &Vec<String>) -> (r: Option<String>)
    ensures
        match latest_spec(strs_of(versions@)) {
            Some(v) => r matches Some(s) && s@ == v,
            None => r is None,
        },
{
    let mut sorted = sort_versions(versions, VersionSort::DottedOldestFirst);
    assert(relation_of(VersionSort::DottedOldestFirst) == dotted_older_first());
    let ghost s = strs_of(sorted@);
    let r = sorted.pop();
    proof {
        if s.len() > 0 {
            assert(s.last() == s[s.len() - 1]);
        }
    }
    r
}

// ---------------------------------------------------------------------------
// Changing the configuration
// ---------------------------------------------------------------------------

/// The statement that sets the root password to `password`, its single
/// quotes doubled.
pub open spec fn alter_user_spec(password: Seq<char>) -> Seq<char> {
    "ALTER USER 'root'@'localhost' IDENTIFIED BY '"@ + ps_escaped(password) + "';"@
}

/// The statement that sets the root password.
pub fn alter_user(password: &str) -> (r: String)
    ensures
        r@ == alter_user_spec(password@),
{
    let mut s = chars_of("ALTER USER 'root'@'localhost' IDENTIFIED BY '");
    let e = ps_escape(password);
    push_str(&mut s, e.as_str());
    push_str(&mut s, "';");
    string_of(s.as_slice())
}

/// The message when a port is taken by another program.
pub open spec fn port_taken_message(port: u16) -> Seq<char> {
    "端口 "@ + decimal(port as nat) + " 已被其他进程占用（可能是您已有的 MySQL/其他服务），请更换端口或先停止占用方"@
}

/// Refuses a port that accepts connections while this version is not
/// running (another program holds it).
pub fn ensure_port_free(port: u16, port_open: bool, running: bool) -> (r: Result<(), String>)
    ensures
        r is Ok <==> !(port_open && !running),
        r matches Err(m) ==> m@ == port_taken_message(port),
{
    if port_open && !running {
        let mut m = chars_of("端口 ");
        push_decimal(&mut m, port as u64);
        push_str(&mut m, " 已被其他进程占用（可能是您已有的 MySQL/其他服务），请更换端口或先停止占用方");
        return Err(string_of(m.as_slice()));
    }
    Ok(())
}

/// What a change of configuration does.
#[derive(Debug, Clone)]
pub struct MySqlUpdate {
    /// The configuration written to `my.cnf`.
    pub config: ServiceConfig,
    /// The statement that changes the root password, when it changes.
    pub alter: Option<String>,
    /// Whether a running instance is restarted (the port changed).
    pub restart: bool,
}

/// The outcome of asking for `port` and `password` on a version:
/// refused when not installed, when the port is 0, or when a new port is
/// taken; otherwise the configuration is written, the password changed when
/// it differs, and a new port applied by a restart.
pub open spec fn update_spec(
    version: Seq<char>,
    installed: bool,
    port: u16,
    password: Seq<char>,
    old: (u16, Seq<char>),
    port_open: bool,
    running: bool,
) -> Result<(u16, Seq<char>, Option<Seq<char>>, bool), Seq<char>> {
    if !installed {
        Err("MySQL "@ + version + " 未安装"@)
    } else if port == 0 {
        Err("端口不能为 0"@)
    } else if port != old.0 && port_open && !running {
        Err(port_taken_message(port))
    } else {
        Ok(
            (
                port,
                password,
                if password != old.1 {
                    Some(alter_user_spec(password))
                } else {
                    None
                },
                port != old.0,
            ),
        )
    }
}

/// The port and password in force (defaults without a configuration).
pub open spec fn old_conf(old: Option<ServiceConfig>) -> (u16, Seq<char>) {
    match old {
        Some(c) => (c.port, c.password@),
        None => (DEFAULT_PORT, seq![]),
    }
}

/// What changing the configuration of `version` to `config` does:
/// `installed` tells whether its server exists, `old` is its current
/// configuration, `port_open` whether the new port accepts connections and
/// `running` whether this version runs.
pub fn update_config(
    version: &str,
    config: &ServiceConfig,
    installed: bool,
    old: Option<ServiceConfig>,
    port_open: bool,
    running: bool,
) -> (r: Result<MySqlUpdate, String>)
    ensures
        match update_spec(version@, installed, config.port, config.password@, old_conf(old), port_open, running) {
            Ok(u) => r matches Ok(w) && w.config.port == u.0 && w.config.password@ == u.1 && w.config.old_password@
                == config.old_password@ && w.restart == u.3 && match u.2 {
                Some(a) => w.alter matches Some(x) && x@ == a,
                None => w.alter is None,
            },
            Err(e) => r matches Err(m) && m@ == e,
        },
{
    if !installed {
        let mut m = chars_of("MySQL ");
        push_str(&mut m, version);
        push_str(&mut m, " 未安装");
        return Err(string_of(m.as_slice()));
    }
    if config.port == 0 {
        return Err(owned("端口不能为 0"));
    }
    let (old_port, old_password) = match old {
        Some(c) => (c.port, c.password),
        None => (DEFAULT_PORT, String::new()),
    };
    if config.port != old_port {
        ensure_port_free(config.port, port_open, running)?;
    }
    let alter = if !(config.password == old_password) {
        Some(alter_user(config.password.as_str()))
    } else {
        None
    };
    Ok(
        MySqlUpdate {
            config: ServiceConfig {
                port: config.port,
                password: config.password.clone(),
                old_password: config.old_password.clone(),
            },
            alter,
            restart: config.port != old_port,
        },
    )
}

/// The arguments of `mysqld` that initialize the data directory without a
/// root password.
pub open spec fn init_args_spec(data_dir: Seq<char>) -> Seq<Seq<char>> {
    seq!["--initialize-insecure"@, "--datadir="@ + data_dir]
}

/// The arguments of `mysqld` that initialize `data_dir`.
pub fn init_args(data_dir: &str) -> (r: Vec<String>)
    ensures
        strs_of(r@) == init_args_spec(data_dir@),
{
    let mut r: Vec<String> = Vec::new();
    r.push(owned("--initialize-insecure"));
    let mut d = chars_of("--datadir=");
    push_str(&mut d, data_dir);
    r.push(string_of(d.as_slice()));
    assert(strs_of(r@) =~= init_args_spec(data_dir@));
    r
}

/// The program and arguments launchd runs for the server: `mysqld` in the
/// foreground with its option file `conf_file`.
pub open spec fn launchd_args_spec(mysqld: Seq<char>, conf_file: Seq<char>) -> Seq<Seq<char>> {
    seq![mysqld, "--defaults-file="@ + conf_file]
}

/// The program and arguments launchd runs for the server.
pub fn launchd_args(mysqld: &str, conf_file: &str) -> (r: Vec<String>)
    ensures
        strs_of(r@) == launchd_args_spec(mysqld@, conf_file@),
{
    let mut r: Vec<String> = Vec::new();
    r.push(owned(mysqld));
    let mut d = chars_of("--defaults-file=");
    push_str(&mut d, conf_file);
    r.push(string_of(d.as_slice()));
    assert(strs_of(r@) =~= launchd_args_spec(mysqld@, conf_file@));
    r
}

/// The arguments of the `mysql` client that run `statement` as root
/// through `socket`: without a password right after installing, else with
/// `password` when there is one.
pub open spec fn client_args_spec(socket: Seq<char>, password: Option<Seq<char>>, statement: Seq<char>) -> Seq<
    Seq<char>,
> {
    match password {
        None => seq!["-u"@, "root"@, "--skip-password"@, "--socket="@ + socket, "-e"@, statement],
        Some(p) => seq!["-u"@, "root"@, "--socket="@ + socket] + (if p.len() > 0 {
            seq!["-p"@ + p]
        } else {
            seq![]
        }) + seq!["-e"@, statement],
    }
}

/// The arguments of the `mysql` client that run `statement`.
pub fn client_args(socket: &str, password: Option<&str>, statement: &str) -> (r: Vec<String>)
    ensures
        strs_of(r@) == client_args_spec(
            socket@,
            match password {
                Some(p) => Some(p@),
                None => None,
            },
            statement@,
        ),
{
    let mut r: Vec<String> = Vec::new();
    r.push(owned("-u"));
    r.push(owned("root"));
    let mut s = chars_of("--socket=");
    push_str(&mut s, socket);
    match password {
        None => {
            r.push(owned("--skip-password"));
            r.push(string_of(s.as_slice()));
        },
        Some(p) => {
            r.push(string_of(s.as_slice()));
            if !p.is_empty() {
                let mut q = chars_of("-p");
                push_str(&mut q, p);
                r.push(string_of(q.as_slice()));
            }
        },
    }
    r.push(owned("-e"));
    r.push(owned(statement));
    proof {
        match password {
            None => {},
            Some(p) => {},
        }
    }
    assert(strs_of(r@) =~= client_args_spec(
        socket@,
        match password {
            Some(p) => Some(p@),
            None => None,
        },
        statement@,
    ));
    r
}

/// The arguments of `mysqladmin` that shut down the instance behind
/// `socket`, with the password when there is one.
pub open spec fn shutdown_args_spec(socket: Seq<char>, password: Seq<char>) -> Seq<Seq<char>> {
    seq!["-u"@, "root"@, "--socket="@ + socket] + (if password.len() > 0 {
        seq!["-p"@ + password]
    } else {
        seq![]
    }) + seq!["shutdown"@]
}

/// The arguments of `mysqladmin` that shut the instance down.
pub fn shutdown_args(socket: &str, password: &str) -> (r: Vec<String>)
    ensures
        strs_of(r@) == shutdown_args_spec(socket@, password@),
{
    let mut r: Vec<String> = Vec::new();
    r.push(owned("-u"));
    r.push(owned("root"));
    let mut s = chars_of("--socket=");
    push_str(&mut s, socket);
    r.push(string_of(s.as_slice()));
    if !password.is_empty() {
        let mut p = chars_of("-p");
        push_str(&mut p, password);
        r.push(string_of(p.as_slice()));
    }
    r.push(owned("shutdown"));
    assert(strs_of(r@) =~= shutdown_args_spec(socket@, password@));
    r
}

// ---------------------------------------------------------------------------
// State
// ---------------------------------------------------------------------------

/// What the caller found for the newest installed version.
#[derive(Debug, Clone)]
pub struct MySqlInstance {
    pub version: String,
    /// Its configuration, when `my.cnf` could be read.
    pub conf: Option<ServiceConfig>,
    /// Whether its pid names a live process that listens on its port.
    pub running: bool,
    pub pid: Option<u32>,
    /// Whether its launchd agent exists.
    pub autostart: bool,
    pub data_dir: String,
}

/// The note shown where MySQL is not offered.
pub open spec fn unsupported_note() -> Seq<char> {
    "当前平台暂不支持 MySQL（Windows 支持规划中）"@
}

/// The state of MySQL on `platform` from its newest installed version.
/// Only macOS runs MySQL; elsewhere it is not installed and a note says
/// why.
pub fn info(platform: Platform, latest: Option<MySqlInstance>) -> (r: ServiceInfo)
    ensures
        r.kind == ServiceKind::MySql,
        r.name@ == NAME@,
        r.versions@.len() == 0,
        platform != Platform::MacOs ==> (r.note matches Some(n) && n@ == unsupported_note()),
        platform == Platform::MacOs ==> r.note is None,
        platform != Platform::MacOs || latest is None ==> {
            &&& !r.installed
            &&& r.version is None
            &&& !r.running
            &&& r.port == DEFAULT_PORT
            &&& r.pid is None
            &&& r.password@ == Seq::<char>::empty()
            &&& !r.autostart
            &&& r.data_dir@ == Seq::<char>::empty()
        },
        platform == Platform::MacOs ==> match latest {
            Some(l) => {
                &&& r.installed
                &&& r.version matches Some(v) && v@ == l.version@
                &&& r.running == l.running
                &&& r.port == (match l.conf {
                    Some(c) => c.port,
                    None => DEFAULT_PORT,
                })
                &&& r.pid == l.pid
                &&& r.password@ == (match l.conf {
                    Some(c) => c.password@,
                    None => Seq::<char>::empty(),
                })
                &&& r.autostart == l.autostart
                &&& r.data_dir@ == l.data_dir@
            },
            None => true,
        },
{
    let note = if platform != Platform::MacOs {
        Some(owned("当前平台暂不支持 MySQL（Windows 支持规划中）"))
    } else {
        None
    };
    match latest {
        Some(l) if platform == Platform::MacOs => {
            let (port, password) = match l.conf {
                Some(c) => (c.port, c.password),
                None => (DEFAULT_PORT, String::new()),
            };
            ServiceInfo {
                kind: ServiceKind::MySql,
                name: owned(NAME),
                installed: true,
                version: Some(l.version),
                versions: Vec::new(),
                running: l.running,
                port,
                pid: l.pid,
                password,
                autostart: l.autostart,
                data_dir: l.data_dir,
                note,
            }
        },
        _ => ServiceInfo {
            kind: ServiceKind::MySql,
            name: owned(NAME),
            installed: false,
            version: None,
            versions: Vec::new(),
            running: false,
            port: DEFAULT_PORT,
            pid: None,
            password: String::new(),
            autostart: false,
            data_dir: String::new(),
            note,
        },
    }
}

/// The last `lines` lines of the log of a version, from `content` read at
/// its end (`truncated` when the read began after its start).
pub fn tail_log(content: &str, truncated: bool, lines: usize) -> (r: String)
    ensures
        r@ == tail_spec(content@, truncated, lines as nat),
{
    crate::services::tail_text(content, truncated, lines)
}

/// Whether a version may be switched to launchd or back: its server must
/// be installed.
pub fn set_autostart(version: &str, installed: bool) -> (r: Result<(), String>)
    ensures
        r is Ok <==> installed,
        r matches Err(m) ==> m@ == "MySQL "@ + version@ + " 未安装"@,
{
    if !installed {
        let mut m = chars_of("MySQL ");
        push_str(&mut m, version);
        push_str(&mut m, " 未安装");
        return Err(string_of(m.as_slice()));
    }
    Ok(())
}

/// Whether starting a version (not under launchd) launches its server:
/// refused when it is not installed; nothing to do when it runs; refused
/// when its configuration is missing.
pub open spec fn start_spec(version: Seq<char>, installed: bool, running: bool, conf_exists: bool) -> Result<bool, Seq<char>> {
    if !installed {
        Err("MySQL "@ + version + " 未安装"@)
    } else if running {
        Ok(false)
    } else if !conf_exists {
        Err("配置文件缺失，请重新安装"@)
    } else {
        Ok(true)
    }
}

/// Whether starting a version launches its server (`Ok(true)`), has
/// nothing to do (`Ok(false)`), or is refused.
pub fn start_check(version: &str, installed: bool, running: bool, conf_exists: bool) -> (r: Result<bool, String>)
    ensures
        match start_spec(version@, installed, running, conf_exists) {
            Ok(b) => r == Ok::<bool, String>(b),
            Err(e) => r matches Err(m) && m@ == e,
        },
{
    if !installed {
        let mut m = chars_of("MySQL ");
        push_str(&mut m, version);
        push_str(&mut m, " 未安装");
        return Err(string_of(m.as_slice()));
    }
    if running {
        return Ok(false);
    }
    if !conf_exists {
        return Err(owned("配置文件缺失，请重新安装"));
    }
    Ok(true)
}

} // verus!

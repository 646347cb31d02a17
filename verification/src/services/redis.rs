//! Redis: its configuration file, the versions offered, the order of
//! versions, and the decisions around a change of configuration.
//!
//! Layout under `~/.novaenv`: programs in `services/redis/<version>/bin`,
//! the configuration in `services/redis/<version>/redis.conf`, data in
//! `data/redis/<version>`, the log in `logs/redis-<version>.log`, the pid in
//! `run/redis-<version>.pid`.
use std::cmp::Ordering;
use vstd::prelude::*;
use crate::activation::Platform;
use crate::installer::std_ordering;
use crate::models::{AvailableVersionGroup, ServiceConfig, ServiceInfo, ServiceKind, ServiceVersionInfo};
use crate::order::{dotted_order, order_dotted, stable_sort, lemma_insert_at, Order};
use crate::services::{flat_groups, group_flat, tail_spec};
use crate::sorting::{dotted_newer_first, group_views, sort_versions, VersionSort, relation_of};
use crate::text::{
    chars_of, count_char, count_of, decimal, dotted_run, dotted_run_end, lines, lines_of, matches_at,
    occurs_at, owned, parse_uint, parse_unsigned, push_decimal, push_str, same, seqs_of, slice, split_once,
    split_once_at, starts_with, string_of, strip_end_all, strip_end_chars, strs_of, trim, trim_chars,
    trim_end, trim_start, is_ws, strip_cr, find_char, lemma_find_char_at, lemma_find_char_none, lemma_trim_end_prefix,
    lemma_trim_exact, lemma_trim_end_last, lemma_lines_first, lemma_decimal_parses, lemma_trim_start_first, lemma_lines_empty,
    lemma_find_char, lemma_lines_are_pieces, lemma_trim_idem, lemma_trim_piece, lemma_piece_trans, lemma_piece_at, is_piece,
};

verus! {

/// The name shown for Redis.
pub const NAME: &'static str = "Redis";

/// The port Redis listens on unless configured otherwise.
pub const DEFAULT_PORT: u16 = 6379;

// ---------------------------------------------------------------------------
// redis.conf
// ---------------------------------------------------------------------------

/// The port and password after reading one line of `redis.conf`: blank
/// lines and comments change nothing; `port N` sets the port when `N`
/// reads as a `u16`; `requirepass P` sets the password.
pub open spec fn conf_line(cfg: (u16, Seq<char>), line: Seq<char>) -> (u16, Seq<char>) {
    let t = trim(line);
    if t.len() == 0 || t[0] == '#' {
        cfg
    } else {
        match split_once(t, ' ') {
            None => cfg,
            Some(kv) => if trim(kv.0) == "port"@ {
                match parse_uint(trim(kv.1), 65535) {
                    Some(p) => (p as u16, cfg.1),
                    None => cfg,
                }
            } else if trim(kv.0) == "requirepass"@ {
                (cfg.0, trim(kv.1))
            } else {
                cfg
            },
        }
    }
}

/// The port and password set by the lines `ls`, the last setting winning.
pub open spec fn conf_of(ls: Seq<Seq<char>>) -> (u16, Seq<char>)
    decreases ls.len(),
{
    if ls.len() == 0 {
        (DEFAULT_PORT, seq![])
    } else {
        conf_line(conf_of(ls.drop_last()), ls.last())
    }
}

/// The port and password that `redis.conf` holding `content` sets.
pub open spec fn redis_conf(content: Seq<char>) -> (u16, Seq<char>) {
    conf_of(lines(content))
}

/// Reads the port and password of a `redis.conf`.
pub fn parse_conf(content: &str) -> (r: ServiceConfig)
    ensures
        r.port == redis_conf(content@).0,
        r.password@ == redis_conf(content@).1,
        r.old_password@ == Seq::<char>::empty(),
{
    let c = chars_of(content);
    let ls = lines_of(c.as_slice());
    let port_key = chars_of("port");
    let pass_key = chars_of("requirepass");
    let mut port: u16 = DEFAULT_PORT;
    let mut password: Vec<char> = Vec::new();
    let mut i: usize = 0;
    let ghost all = seqs_of(ls@);
    assert(all.take(0) =~= Seq::<Seq<char>>::empty());
    while i < ls.len()
        invariant
            i <= ls@.len(),
            all == seqs_of(ls@),
            all == lines(content@),
            port_key@ == "port"@,
            pass_key@ == "requirepass"@,
            (port, password@) == conf_of(all.take(i as int)),
        decreases ls@.len() - i,
    {
        proof {
            let t = all.take(i + 1);
            assert(t.drop_last() =~= all.take(i as int));
            assert(t.last() == ls@[i as int]@);
        }
        let t = trim_chars(ls[i].as_slice());
        if t.len() > 0 && t[0] != '#' {
            match split_once_at(t.as_slice(), ' ') {
                Some((k, v)) => {
                    let key = trim_chars(k.as_slice());
                    if same(key.as_slice(), port_key.as_slice()) {
                        let val = trim_chars(v.as_slice());
                        match parse_unsigned(val.as_slice(), 65535) {
                            Some(p) => {
                                port = p as u16;
                            },
                            None => {},
                        }
                    } else if same(key.as_slice(), pass_key.as_slice()) {
                        password = trim_chars(v.as_slice());
                    }
                },
                None => {},
            }
        }
        i = i + 1;
    }
    assert(all.take(ls@.len() as int) =~= all);
    ServiceConfig { port, password: string_of(password.as_slice()), old_password: String::new() }
}

/// The run configuration of a version: `port`, daemonized with its pid
/// file, data directory and log, snapshots and an append-only file, and the
/// password when there is one.
pub open spec fn conf_text_spec(
    port: u16,
    pid_file: Seq<char>,
    data_dir: Seq<char>,
    log_file: Seq<char>,
    password: Seq<char>,
) -> Seq<char> {
    "port "@ + decimal(port as nat) + "\ndaemonize yes\npidfile "@ + pid_file + "\ndir "@ + data_dir
        + "\nlogfile "@ + log_file
        + "\nsave 900 1\nsave 300 10\nsave 60 10000\nappendonly yes\nappendfilename appendonly.aof\n"@ + (
    if password.len() > 0 {
        "requirepass "@ + password + "\n"@
    } else {
        seq![]
    })
}

/// The run configuration written for a version.
pub fn conf_text(config: &ServiceConfig, pid_file: &str, data_dir: &str, log_file: &str) -> (r: String)
    ensures
        r@ == conf_text_spec(config.port, pid_file@, data_dir@, log_file@, config.password@),
{
    let mut s = chars_of("port ");
    push_decimal(&mut s, config.port as u64);
    push_str(&mut s, "\ndaemonize yes\npidfile ");
    push_str(&mut s, pid_file);
    push_str(&mut s, "\ndir ");
    push_str(&mut s, data_dir);
    push_str(&mut s, "\nlogfile ");
    push_str(&mut s, log_file);
    push_str(&mut s, "\nsave 900 1\nsave 300 10\nsave 60 10000\nappendonly yes\nappendfilename appendonly.aof\n");
    let ghost base = s@;
    if !config.password.as_str().is_empty() {
        push_str(&mut s, "requirepass ");
        push_str(&mut s, config.password.as_str());
        push_str(&mut s, "\n");
        assert(config.password@.len() > 0);
    } else {
        assert(config.password@.len() == 0);
        assert(s@ =~= base + Seq::<char>::empty());
    }
    string_of(s.as_slice())
}

/// A line that changes neither the port nor the password.
pub open spec fn neutral(line: Seq<char>) -> bool {
    forall|cfg: (u16, Seq<char>)| #[trigger] conf_line(cfg, line) == cfg
}

/// A line that begins with the word `k`, then a space: any setting other
/// than the port and the password.
pub open spec fn keyed(line: Seq<char>, k: Seq<char>) -> bool {
    &&& k.len() > 0
    &&& k[0] != '#'
    &&& forall|i: int| 0 <= i < k.len() ==> !is_ws(#[trigger] k[i])
    &&& k != "port"@
    &&& k != "requirepass"@
    &&& line.len() > k.len()
    &&& line.take(k.len() as int) == k
    &&& line[k.len() as int] == ' '
}

/// A line keyed by another setting keeps that shape when a carriage
/// return is cut from its end.
proof fn lemma_keyed_strip_cr(line: Seq<char>, k: Seq<char>)
    requires
        keyed(line, k),
    ensures
        keyed(strip_cr(line), k),
{
    if line.last() == '\r' {
        assert(line.len() > k.len() + 1);
        assert(strip_cr(line).take(k.len() as int) =~= line.take(k.len() as int));
        assert(strip_cr(line)[k.len() as int] == line[k.len() as int]);
    }
}

/// A line keyed by another setting changes nothing.
proof fn lemma_keyed_neutral(line: Seq<char>, k: Seq<char>)
    requires
        keyed(line, k),
    ensures
        neutral(line),
{
    let n = k.len() as int;
    assert(line[0] == k[0]) by {
        assert(line.take(n)[0] == line[0]);
    }
    assert(trim_start(line) == line);
    lemma_trim_end_prefix(line);
    let t = trim(line);
    assert(t == trim_end(line));
    assert(t.len() >= n) by {
        if t.len() < n {
            assert(line[n - 1] == line.take(n)[n - 1]);
            assert(is_ws(line[n - 1]));
        }
    }
    assert(t.take(n) =~= k) by {
        assert forall|i: int| 0 <= i < n implies t.take(n)[i] == k[i] by {
            assert(t[i] == line[i]);
            assert(line.take(n)[i] == line[i]);
        }
    }
    assert(t[0] == k[0]);
    lemma_trim_exact(k);
    if t.len() == n {
        assert(t =~= k);
        assert forall|j: int| 0 <= j < t.len() implies t[j] != ' ' by {
            assert(!is_ws(k[j]));
        }
        lemma_find_char_none(t, ' ');
    } else {
        assert(t[n] == line[n]);
        assert forall|j: int| 0 <= j < n implies t[j] != ' ' by {
            assert(t[j] == k[j]);
            assert(!is_ws(k[j]));
        }
        lemma_find_char_at(t, ' ', n);
        assert(split_once(t, ' ') == Some((t.take(n), t.skip(n + 1))));
    }
    assert forall|cfg: (u16, Seq<char>)| #[trigger] conf_line(cfg, line) == cfg by {}
}

/// The port line sets the port.
proof fn lemma_port_line(port: u16)
    ensures
        forall|cfg: (u16, Seq<char>)| #[trigger] conf_line(cfg, "port "@ + decimal(port as nat)) == (port, cfg.1),
        strip_cr("port "@ + decimal(port as nat)) == "port "@ + decimal(port as nat),
        !("port "@ + decimal(port as nat)).contains('\n'),
{
    reveal_strlit("port ");
    reveal_strlit("port");
    reveal_strlit("requirepass");
    let d = decimal(port as nat);
    lemma_decimal_parses(port as nat, 65535);
    let l = "port "@ + d;
    assert(l[0] == 'p');
    assert(l.last() == d.last());
    lemma_trim_exact(l);
    lemma_trim_exact(d);
    assert forall|j: int| 0 <= j < 4 implies l[j] != ' ' by {}
    assert(l[4] == ' ');
    lemma_find_char_at(l, ' ', 4);
    assert(l.take(4) =~= "port"@);
    assert(l.skip(5) =~= d);
    lemma_trim_exact("port"@);
    if l.contains('\n') {
        let j = choose|j: int| 0 <= j < l.len() && l[j] == '\n';
        if j >= 5 {
            assert(l[j] == d[j - 5]);
        }
    }
    assert forall|cfg: (u16, Seq<char>)| #[trigger] conf_line(cfg, l) == (port, cfg.1) by {}
}

/// The password line sets the password.
proof fn lemma_pass_line(password: Seq<char>)
    requires
        password.len() > 0,
        trim(password) == password,
    ensures
        forall|cfg: (u16, Seq<char>)| #[trigger] conf_line(cfg, "requirepass "@ + password) == (cfg.0, password),
        strip_cr("requirepass "@ + password) == "requirepass "@ + password,
{
    reveal_strlit("requirepass ");
    reveal_strlit("requirepass");
    reveal_strlit("port");
    lemma_trim_end_last(password);
    lemma_trim_start_first(password);
    let l = "requirepass "@ + password;
    assert(l[0] == 'r');
    assert(l.last() == password.last());
    lemma_trim_exact(l);
    assert forall|j: int| 0 <= j < 11 implies l[j] != ' ' by {}
    assert(l[11] == ' ');
    lemma_find_char_at(l, ' ', 11);
    assert(l.take(11) =~= "requirepass"@);
    assert(l.skip(12) =~= password);
    lemma_trim_exact("requirepass"@);
    assert forall|cfg: (u16, Seq<char>)| #[trigger] conf_line(cfg, l) == (cfg.0, password) by {}
}

/// Lines that change nothing leave the setting of the lines before them.
proof fn lemma_conf_neutral_tail(ls: Seq<Seq<char>>, tail: Seq<Seq<char>>)
    requires
        forall|i: int| 0 <= i < tail.len() ==> neutral(#[trigger] tail[i]),
    ensures
        conf_of(ls + tail) == conf_of(ls),
    decreases tail.len(),
{
    if tail.len() == 0 {
        assert(ls + tail =~= ls);
    } else {
        let t = tail.drop_last();
        assert forall|i: int| 0 <= i < t.len() implies neutral(#[trigger] t[i]) by {
            assert(t[i] == tail[i]);
        }
        lemma_conf_neutral_tail(ls, t);
        assert((ls + tail).drop_last() =~= ls + t);
        assert((ls + tail).last() == tail.last());
        assert(neutral(tail[tail.len() - 1]));
        assert(conf_line(conf_of(ls + t), tail.last()) == conf_of(ls + t));
    }
}

/// A word followed by a space and anything: a line keyed by that word.
proof fn lemma_keyed_prefix(k: Seq<char>, rest: Seq<char>)
    requires
        k.len() > 0,
        k[0] != '#',
        forall|i: int| 0 <= i < k.len() ==> !is_ws(#[trigger] k[i]),
        k != "port"@,
        k != "requirepass"@,
    ensures
        keyed(k + seq![' '] + rest, k),
        neutral(strip_cr(k + seq![' '] + rest)),
{
    let l = k + seq![' '] + rest;
    assert(l.take(k.len() as int) =~= k);
    assert(l[k.len() as int] == ' ');
    lemma_keyed_strip_cr(l, k);
    lemma_keyed_neutral(strip_cr(l), k);
}

/// Two texts without line feeds make one without.
proof fn lemma_no_lf_concat(a: Seq<char>, b: Seq<char>)
    requires
        !a.contains('\n'),
        !b.contains('\n'),
    ensures
        !(a + b).contains('\n'),
{
    if (a + b).contains('\n') {
        let j = choose|j: int| 0 <= j < (a + b).len() && (a + b)[j] == '\n';
        if j < a.len() {
            assert(a[j] == '\n');
        } else {
            assert(b[j - a.len()] == '\n');
        }
    }
}

/// A word of another setting of `redis.conf`: no white space, no line
/// feed, not a comment, and neither the port nor the password.
#[verifier::spinoff_prover]
proof fn lemma_setting_word(k: Seq<char>)
    requires
        k == "daemonize"@ || k == "pidfile"@ || k == "dir"@ || k == "logfile"@ || k == "save"@ || k
            == "appendonly"@ || k == "appendfilename"@,
    ensures
        k.len() > 0,
        k[0] != '#',
        forall|i: int| 0 <= i < k.len() ==> !is_ws(#[trigger] k[i]),
        k != "port"@,
        k != "requirepass"@,
        !k.contains('\n'),
{
    reveal_strlit("daemonize");
    reveal_strlit("pidfile");
    reveal_strlit("dir");
    reveal_strlit("logfile");
    reveal_strlit("save");
    reveal_strlit("appendonly");
    reveal_strlit("appendfilename");
    reveal_strlit("port");
    reveal_strlit("requirepass");
    assert("port"@[0] == 'p');
    assert("requirepass"@[0] == 'r');
    if k.contains('\n') {
        let j = choose|j: int| 0 <= j < k.len() && k[j] == '\n';
        assert(k[j] != '\n');
    }
}

/// What a written `redis.conf` reads back: the port and the password it
/// was written with, whatever paths it names, as long as no path and no
/// password holds a line feed and the password has no white space at
/// either end (reading trims it).
#[verifier::rlimit(60)]
#[verifier::spinoff_prover]
pub proof fn law_conf_reads_back(
    port: u16,
    pid_file: Seq<char>,
    data_dir: Seq<char>,
    log_file: Seq<char>,
    password: Seq<char>,
)
    requires
        !pid_file.contains('\n'),
        !data_dir.contains('\n'),
        !log_file.contains('\n'),
        !password.contains('\n'),
        trim(password) == password,
    ensures
        redis_conf(conf_text_spec(port, pid_file, data_dir, log_file, password)) == (port, password),
{
    reveal_strlit("\ndaemonize yes\npidfile ");
    reveal_strlit("\ndir ");
    reveal_strlit("\nlogfile ");
    reveal_strlit("\nsave 900 1\nsave 300 10\nsave 60 10000\nappendonly yes\nappendfilename appendonly.aof\n");
    reveal_strlit("requirepass ");
    reveal_strlit("\n");
    reveal_strlit("daemonize");
    reveal_strlit("pidfile");
    reveal_strlit("dir");
    reveal_strlit("logfile");
    reveal_strlit("save");
    reveal_strlit("appendonly");
    reveal_strlit("appendfilename");
    lemma_setting_word("daemonize"@);
    lemma_setting_word("pidfile"@);
    lemma_setting_word("dir"@);
    lemma_setting_word("logfile"@);
    lemma_setting_word("save"@);
    lemma_setting_word("appendonly"@);
    lemma_setting_word("appendfilename"@);
    let nl = seq!['\n'];
    let sp = seq![' '];
    let l0 = "port "@ + decimal(port as nat);
    let l1 = "daemonize"@ + sp + seq!['y', 'e', 's'];
    let l2 = "pidfile"@ + sp + pid_file;
    let l3 = "dir"@ + sp + data_dir;
    let l4 = "logfile"@ + sp + log_file;
    let l5 = "save"@ + sp + seq!['9', '0', '0', ' ', '1'];
    let l6 = "save"@ + sp + seq!['3', '0', '0', ' ', '1', '0'];
    let l7 = "save"@ + sp + seq!['6', '0', ' ', '1', '0', '0', '0', '0'];
    let l8 = "appendonly"@ + sp + seq!['y', 'e', 's'];
    let l9 = "appendfilename"@ + sp + "appendonly.aof"@;
    reveal_strlit("appendonly.aof");
    let rp = "requirepass "@ + password;
    let opt = if password.len() > 0 {
        rp + nl
    } else {
        Seq::<char>::empty()
    };
    let s9 = l9 + nl + opt;
    let s8 = l8 + nl + s9;
    let s7 = l7 + nl + s8;
    let s6 = l6 + nl + s7;
    let s5 = l5 + nl + s6;
    let s4 = l4 + nl + s5;
    let s3 = l3 + nl + s4;
    let s2 = l2 + nl + s3;
    let s1 = l1 + nl + s2;
    let s0 = l0 + nl + s1;
    assert(conf_text_spec(port, pid_file, data_dir, log_file, password) =~= s0);
    // Each line is free of line feeds.
    lemma_port_line(port);
    let yes = seq!['y', 'e', 's'];
    assert(!sp.contains('\n'));
    assert(!yes.contains('\n')) by {
        if yes.contains('\n') {
            let j = choose|j: int| 0 <= j < yes.len() && yes[j] == '\n';
            assert(yes[j] != '\n');
        }
    }
    assert(!l1.contains('\n')) by {
        lemma_no_lf_concat("daemonize"@, sp);
        lemma_no_lf_concat("daemonize"@ + sp, yes);
    }
    assert(!l2.contains('\n')) by {
        lemma_no_lf_concat("pidfile"@, sp);
        lemma_no_lf_concat("pidfile"@ + sp, pid_file);
    }
    assert(!l3.contains('\n')) by {
        lemma_no_lf_concat("dir"@, sp);
        lemma_no_lf_concat("dir"@ + sp, data_dir);
    }
    assert(!l4.contains('\n')) by {
        lemma_no_lf_concat("logfile"@, sp);
        lemma_no_lf_concat("logfile"@ + sp, log_file);
    }
    assert(!l5.contains('\n') && !l6.contains('\n') && !l7.contains('\n') && !l8.contains('\n')
        && !l9.contains('\n')) by {
        if l5.contains('\n') {
            let j = choose|j: int| 0 <= j < l5.len() && l5[j] == '\n';
            assert(l5[j] != '\n');
        }
        if l6.contains('\n') {
            let j = choose|j: int| 0 <= j < l6.len() && l6[j] == '\n';
            assert(l6[j] != '\n');
        }
        if l7.contains('\n') {
            let j = choose|j: int| 0 <= j < l7.len() && l7[j] == '\n';
            assert(l7[j] != '\n');
        }
        if l8.contains('\n') {
            let j = choose|j: int| 0 <= j < l8.len() && l8[j] == '\n';
            assert(l8[j] != '\n');
        }
        if l9.contains('\n') {
            let j = choose|j: int| 0 <= j < l9.len() && l9[j] == '\n';
            assert(l9[j] != '\n');
        }
    }
    lemma_lines_first(l0, s1);
    lemma_lines_first(l1, s2);
    lemma_lines_first(l2, s3);
    lemma_lines_first(l3, s4);
    lemma_lines_first(l4, s5);
    lemma_lines_first(l5, s6);
    lemma_lines_first(l6, s7);
    lemma_lines_first(l7, s8);
    lemma_lines_first(l8, s9);
    lemma_lines_first(l9, opt);
    // The other settings change nothing.
    lemma_keyed_prefix("daemonize"@, yes);
    lemma_keyed_prefix("pidfile"@, pid_file);
    lemma_keyed_prefix("dir"@, data_dir);
    lemma_keyed_prefix("logfile"@, log_file);
    lemma_keyed_prefix("save"@, seq!['9', '0', '0', ' ', '1']);
    lemma_keyed_prefix("save"@, seq!['3', '0', '0', ' ', '1', '0']);
    lemma_keyed_prefix("save"@, seq!['6', '0', ' ', '1', '0', '0', '0', '0']);
    lemma_keyed_prefix("appendonly"@, yes);
    lemma_keyed_prefix("appendfilename"@, "appendonly.aof"@);
    let n = seq![
        strip_cr(l1),
        strip_cr(l2),
        strip_cr(l3),
        strip_cr(l4),
        strip_cr(l5),
        strip_cr(l6),
        strip_cr(l7),
        strip_cr(l8),
        strip_cr(l9),
    ];
    assert forall|i: int| 0 <= i < n.len() implies neutral(#[trigger] n[i]) by {}
    let e = Seq::<char>::empty();
    assert(lines(e) =~= Seq::<Seq<char>>::empty()) by {
        lemma_lines_empty();
    }
    let first = seq![l0];
    lemma_conf_neutral_tail(first, n);
    assert(first.drop_last() =~= Seq::<Seq<char>>::empty());
    assert(first.last() == l0);
    assert(conf_of(Seq::<Seq<char>>::empty()) == (DEFAULT_PORT, Seq::<char>::empty()));
    assert(conf_of(first) == conf_line(conf_of(first.drop_last()), first.last()));
    assert(conf_line((DEFAULT_PORT, Seq::<char>::empty()), l0) == (port, Seq::<char>::empty()));
    assert(conf_of(first) == (port, Seq::<char>::empty()));
    let ls = lines(s0);
    if password.len() > 0 {
        lemma_pass_line(password);
        assert(opt =~= rp + nl + e);
        lemma_lines_first(rp, e);
        assert(lines(opt) =~= seq![rp]);
        assert(ls =~= first + n + seq![rp]);
        assert((first + n + seq![rp]).drop_last() =~= first + n);
    } else {
        assert(ls =~= first + n);
        assert(password =~= Seq::<char>::empty());
    }
}

/// The configuration for running a version under launchd: in the
/// foreground, with its pid file, data directory, log and password.
pub open spec fn launchd_conf_spec(
    port: u16,
    pid_file: Seq<char>,
    data_dir: Seq<char>,
    log_file: Seq<char>,
    password: Seq<char>,
) -> Seq<char> {
    "port "@ + decimal(port as nat) + "\ndaemonize no\npidfile "@ + pid_file + "\ndir "@ + data_dir
        + "\nlogfile "@ + log_file + "\n"@ + (if password.len() > 0 {
        "requirepass "@ + password + "\n"@
    } else {
        seq![]
    })
}

/// The configuration written for running a version under launchd.
pub fn launchd_conf_text(config: &ServiceConfig, pid_file: &str, data_dir: &str, log_file: &str) -> (r:
    String)
    ensures
        r@ == launchd_conf_spec(config.port, pid_file@, data_dir@, log_file@, config.password@),
{
    let mut s = chars_of("port ");
    push_decimal(&mut s, config.port as u64);
    push_str(&mut s, "\ndaemonize no\npidfile ");
    push_str(&mut s, pid_file);
    push_str(&mut s, "\ndir ");
    push_str(&mut s, data_dir);
    push_str(&mut s, "\nlogfile ");
    push_str(&mut s, log_file);
    push_str(&mut s, "\n");
    let ghost base = s@;
    if !config.password.as_str().is_empty() {
        push_str(&mut s, "requirepass ");
        push_str(&mut s, config.password.as_str());
        push_str(&mut s, "\n");
    } else {
        assert(s@ =~= base + Seq::<char>::empty());
    }
    string_of(s.as_slice())
}

// ---------------------------------------------------------------------------
// Versions
// ---------------------------------------------------------------------------

/// Compares two versions by their dotted fields (`8.10.0 > 8.8.1`).
pub fn cmp_versions(a: &str, b: &str) -> (r: Ordering)
    ensures
        r == std_ordering(dotted_order(a@, b@)),
{
    let ca = chars_of(a);
    let cb = chars_of(b);
    match order_dotted(ca.as_slice(), cb.as_slice()) {
        Order::Less => Ordering::Less,
        Order::Equal => Ordering::Equal,
        Order::Greater => Ordering::Greater,
    }
}

/// The version that follows an occurrence of `redis-`, `rest` being the
/// page after it: the digits and dots there without trailing dots, when
/// they hold at least two dots and `.tar.gz` follows them.
pub open spec fn html_version(rest: Seq<char>) -> Option<Seq<char>> {
    let v = strip_end_all(rest.take(dotted_run(rest) as int), '.');
    if count_char(v, '.') >= 2 && starts_with(rest.skip(v.len() as int), ".tar.gz"@) {
        Some(v)
    } else {
        None
    }
}

/// The versions named on the page `h` at or after index `i`, added to
/// `acc` in order of appearance when not there yet.  (`redis-` cannot
/// overlap itself, so its occurrences are those `str::match_indices`
/// finds.)
pub open spec fn html_versions_from(h: Seq<char>, i: int, acc: Seq<Seq<char>>) -> Seq<Seq<char>>
    decreases h.len() - i,
{
    if i < 0 || i >= h.len() {
        acc
    } else {
        let next = if occurs_at(h, "redis-"@, i) {
            match html_version(h.skip(i + "redis-"@.len())) {
                Some(v) => if acc.contains(v) {
                    acc
                } else {
                    acc.push(v)
                },
                None => acc,
            }
        } else {
            acc
        };
        html_versions_from(h, i + 1, next)
    }
}

/// The versions that the release page `h` lists as `redis-X.Y.Z.tar.gz`,
/// in order of appearance, each once.
pub open spec fn html_versions(h: Seq<char>) -> Seq<Seq<char>> {
    html_versions_from(h, 0, seq![])
}

/// Whether `list` holds `s`.
fn listed(list: &Vec<String>, s: &Vec<char>) -> (r: bool)
    ensures
        r == strs_of(list@).contains(s@),
{
    let mut i: usize = 0;
    while i < list.len()
        invariant
            i <= list@.len(),
            forall|j: int| 0 <= j < i ==> list@[j]@ != s@,
        decreases list@.len() - i,
    {
        let c = chars_of(list[i].as_str());
        if same(c.as_slice(), s.as_slice()) {
            assert(strs_of(list@)[i as int] == s@);
            return true;
        }
        i = i + 1;
    }
    assert forall|j: int| 0 <= j < strs_of(list@).len() implies strs_of(list@)[j] != s@ by {
        assert(strs_of(list@)[j] == list@[j]@);
    }
    false
}

/// The versions listed on the release page `html`.
pub fn parse_version_html(html: &str) -> (r: Vec<String>)
    ensures
        strs_of(r@) == html_versions(html@),
{
    let h = chars_of(html);
    let pat = chars_of("redis-");
    let tail = chars_of(".tar.gz");
    let mut acc: Vec<String> = Vec::new();
    let mut i: usize = 0;
    assert(strs_of(acc@) =~= Seq::<Seq<char>>::empty());
    while i < h.len()
        invariant
            i <= h@.len(),
            h@ == html@,
            pat@ == "redis-"@,
            tail@ == ".tar.gz"@,
            html_versions(html@) == html_versions_from(h@, i as int, strs_of(acc@)),
        decreases h@.len() - i,
    {
        let ghost before = strs_of(acc@);
        if matches_at(h.as_slice(), pat.as_slice(), i) {
            let start = i + pat.len();
            let end = dotted_run_end(h.as_slice(), start);
            let run = slice(h.as_slice(), start, end);
            let v = strip_end_chars(run.as_slice(), '.');
            proof {
                let rest = h@.skip(start as int);
                assert(rest.take(dotted_run(rest) as int) =~= run@);
                assert(v@.len() <= run@.len()) by {
                    lemma_strip_end_len(run@, '.');
                }
                assert(rest.skip(v@.len() as int) =~= h@.skip(start + v@.len()));
                let x = h@.skip(start + v@.len());
                let k = start + v@.len();
                if tail@.len() <= x.len() {
                    assert(x.take(tail@.len() as int) =~= h@.subrange(k, k + tail@.len()));
                }
                assert(starts_with(rest.skip(v@.len() as int), tail@) == occurs_at(h@, tail@, start + v@.len()));
            }
            if count_of(v.as_slice(), '.') >= 2 && matches_at(h.as_slice(), tail.as_slice(), start + v.len()) {
                if !listed(&acc, &v) {
                    acc.push(string_of(v.as_slice()));
                    assert(strs_of(acc@) =~= before.push(v@));
                }
            }
        }
        i = i + 1;
    }
    acc
}

/// A trimmed run is no longer than the run.
proof fn lemma_strip_end_len(s: Seq<char>, c: char)
    ensures
        strip_end_all(s, c).len() <= s.len(),
    decreases s.len(),
{
    if s.len() > 0 && s.last() == c {
        lemma_strip_end_len(s.drop_last(), c);
    }
}

/// The versions offered when the release page cannot be read, newest
/// first.
pub open spec fn fallback_spec() -> Seq<Seq<char>> {
    seq![
        "8.10.0"@,
        "8.8.1"@,
        "8.6.5"@,
        "8.4.0"@,
        "8.2.1"@,
        "8.0.4"@,
        "7.4.4"@,
        "7.2.8"@,
        "7.0.15"@,
        "6.2.17"@,
        "6.0.20"@,
    ]
}

/// The versions offered when the release page cannot be read.
pub fn fallback_versions() -> (r: Vec<String>)
    ensures
        strs_of(r@) == fallback_spec(),
{
    let mut r: Vec<String> = Vec::new();
    r.push(owned("8.10.0"));
    r.push(owned("8.8.1"));
    r.push(owned("8.6.5"));
    r.push(owned("8.4.0"));
    r.push(owned("8.2.1"));
    r.push(owned("8.0.4"));
    r.push(owned("7.4.4"));
    r.push(owned("7.2.8"));
    r.push(owned("7.0.15"));
    r.push(owned("6.2.17"));
    r.push(owned("6.0.20"));
    assert(strs_of(r@) =~= fallback_spec());
    r
}

/// The versions a release page lists, newest first (stable for equal
/// versions), or the error when it lists none.
pub open spec fn page_versions(html: Seq<char>) -> Result<Seq<Seq<char>>, Seq<char>> {
    let vs = stable_sort(html_versions(html), dotted_newer_first());
    if vs.len() == 0 {
        Err("Redis 版本源未解析到可用版本"@)
    } else {
        Ok(vs)
    }
}

/// The versions of the release page `html`, newest first.
pub fn versions_from_page(html: &str) -> (r: Result<Vec<String>, String>)
    ensures
        match page_versions(html@) {
            Ok(vs) => r matches Ok(v) && strs_of(v@) == vs,
            Err(e) => r matches Err(m) && m@ == e,
        },
{
    let found = parse_version_html(html);
    let sorted = sort_versions(&found, VersionSort::DottedNewestFirst);
    assert(relation_of(VersionSort::DottedNewestFirst) == dotted_newer_first());
    if sorted.len() == 0 {
        assert(strs_of(sorted@).len() == 0);
        return Err(owned("Redis 版本源未解析到可用版本"));
    }
    Ok(sorted)
}

/// The versions offered: those of the release page when it was read
/// (`page`) and lists some, else the built-in list.
pub open spec fn offered_versions(page: Option<Seq<char>>) -> Seq<Seq<char>> {
    match page {
        Some(h) => match page_versions(h) {
            Ok(vs) => vs,
            Err(_) => fallback_spec(),
        },
        None => fallback_spec(),
    }
}

/// The versions that can be installed, newest first; `page` is the
/// release page when it could be fetched.  Never an error: without a page
/// the built-in list is offered.
pub fn available_versions(page: Option<&str>) -> (r: Result<Vec<String>, String>)
    ensures
        r matches Ok(v) && strs_of(v@) == offered_versions(
            match page {
                Some(h) => Some(h@),
                None => None,
            },
        ),
{
    match page {
        Some(h) => match versions_from_page(h) {
            Ok(v) => Ok(v),
            Err(_) => Ok(fallback_versions()),
        },
        None => Ok(fallback_versions()),
    }
}

/// The versions that can be installed, grouped by major version (the
/// order of `available_versions` kept; no group is long-term supported).
pub fn available_version_groups(page: Option<&str>) -> (r: Result<Vec<AvailableVersionGroup>, String>)
    ensures
        r matches Ok(g) && group_views(g@) == flat_groups(
            offered_versions(
                match page {
                    Some(h) => Some(h@),
                    None => None,
                },
            ),
            None,
        ),
{
    let versions = available_versions(page)?;
    Ok(group_flat(&versions, None))
}

// ---------------------------------------------------------------------------
// Changing the configuration
// ---------------------------------------------------------------------------

/// What a change of configuration writes, or why it is refused: the
/// version must be installed, the port not 0, and a new port free; an
/// empty password keeps the old one.
pub open spec fn update_spec(
    version: Seq<char>,
    installed: bool,
    port: u16,
    password: Seq<char>,
    old: (u16, Seq<char>),
    port_in_use: bool,
) -> Result<(u16, Seq<char>), Seq<char>> {
    if !installed {
        Err("Redis "@ + version + " 未安装"@)
    } else if port == 0 {
        Err("端口不能为 0"@)
    } else if port != old.0 && port_in_use {
        Err("端口 "@ + decimal(port as nat) + " 已被占用，请换一个端口"@)
    } else if password.len() == 0 {
        Ok((port, old.1))
    } else {
        Ok((port, password))
    }
}

/// The password a configuration sets is a single trimmed line.
proof fn lemma_conf_password_shape(ls: Seq<Seq<char>>)
    requires
        forall|k: int| 0 <= k < ls.len() ==> !(#[trigger] ls[k]).contains('\n'),
    ensures
        trim(conf_of(ls).1) == conf_of(ls).1,
        !conf_of(ls).1.contains('\n'),
    decreases ls.len(),
{
    if ls.len() > 0 {
        let d = ls.drop_last();
        assert forall|k: int| 0 <= k < d.len() implies !(#[trigger] d[k]).contains('\n') by {
            assert(d[k] == ls[k]);
        }
        lemma_conf_password_shape(d);
        let line = ls.last();
        assert(line == ls[ls.len() - 1]);
        let t = trim(line);
        lemma_find_char(t, ' ');
        match split_once(t, ' ') {
            Some(kv) => {
                let i = find_char(t, ' ')->0;
                let v = kv.1;
                let w = trim(v);
                lemma_trim_idem(v);
                lemma_trim_piece(line);
                assert(t.subrange(i + 1, t.len() as int) =~= v);
                lemma_piece_at(v, t, i + 1);
                lemma_trim_piece(v);
                lemma_piece_trans(w, v, t);
                lemma_piece_trans(w, t, line);
                if w.contains('\n') {
                    let j = choose|j: int| 0 <= j < w.len() && w[j] == '\n';
                    let a = choose|a: int| 0 <= a && a + w.len() <= line.len() && #[trigger] line.subrange(a, a + w.len()) == w;
                    assert(line.subrange(a, a + w.len())[j] == line[a + j]);
                }
            },
            None => {},
        }
    }
}

/// Updating the configuration and writing it gives a `redis.conf` that
/// reads back as the port asked for and the password asked for, or the
/// password in force (read from the present configuration `current`) when
/// none is given.
pub proof fn law_update_reads_back(
    current: Seq<char>,
    version: Seq<char>,
    installed: bool,
    port: u16,
    password: Seq<char>,
    port_in_use: bool,
    pid_file: Seq<char>,
    data_dir: Seq<char>,
    log_file: Seq<char>,
)
    requires
        update_spec(version, installed, port, password, redis_conf(current), port_in_use) is Ok,
        !password.contains('\n'),
        trim(password) == password,
        !pid_file.contains('\n'),
        !data_dir.contains('\n'),
        !log_file.contains('\n'),
    ensures
        ({
            let kept = if password.len() == 0 {
                redis_conf(current).1
            } else {
                password
            };
            &&& update_spec(version, installed, port, password, redis_conf(current), port_in_use) == Ok::<
                (u16, Seq<char>),
                Seq<char>,
            >((port, kept))
            &&& redis_conf(conf_text_spec(port, pid_file, data_dir, log_file, kept)) == (port, kept)
        }),
{
    lemma_lines_are_pieces(current);
    lemma_conf_password_shape(lines(current));
    let kept = if password.len() == 0 {
        redis_conf(current).1
    } else {
        password
    };
    law_conf_reads_back(port, pid_file, data_dir, log_file, kept);
}

/// The port and password in force for a version whose configuration
/// reads as `old` (defaults when there is none).
pub open spec fn old_conf(old: Option<ServiceConfig>) -> (u16, Seq<char>) {
    match old {
        Some(c) => (c.port, c.password@),
        None => (DEFAULT_PORT, seq![]),
    }
}

/// The configuration to write when `config` is asked for `version`:
/// `installed` tells whether its server exists, `old` is its current
/// configuration, and `port_in_use` whether the new port accepts
/// connections.  After writing it the caller restarts a running instance.
pub fn update_config(
    version: &str,
    config: &ServiceConfig,
    installed: bool,
    old: Option<ServiceConfig>,
    port_in_use: bool,
) -> (r: Result<ServiceConfig, String>)
    ensures
        match update_spec(version@, installed, config.port, config.password@, old_conf(old), port_in_use) {
            Ok(c) => r matches Ok(w) && w.port == c.0 && w.password@ == c.1 && w.old_password@
                == config.old_password@,
            Err(e) => r matches Err(m) && m@ == e,
        },
{
    if !installed {
        let mut m = chars_of("Redis ");
        push_str(&mut m, version);
        push_str(&mut m, " 未安装");
        return Err(string_of(m.as_slice()));
    }
    if config.port == 0 {
        return Err(owned("端口不能为 0"));
    }
    let (old_port, old_password) = match old {
        Some(c) => (c.port, c.password),
        None => (DEFAULT_PORT, String::new()),
    };
    if config.port != old_port && port_in_use {
        let mut m = chars_of("端口 ");
        push_decimal(&mut m, config.port as u64);
        push_str(&mut m, " 已被占用，请换一个端口");
        return Err(string_of(m.as_slice()));
    }
    let password = if config.password.as_str().is_empty() {
        old_password
    } else {
        config.password.clone()
    };
    Ok(ServiceConfig { port: config.port, password, old_password: config.old_password.clone() })
}

// ---------------------------------------------------------------------------
// State
// ---------------------------------------------------------------------------

/// What the caller found for one installed version.
#[derive(Debug, Clone)]
pub struct RedisInstance {
    pub version: String,
    /// Its configuration, when `redis.conf` could be read.
    pub conf: Option<ServiceConfig>,
    /// Whether its pid file names a live process.
    pub running: bool,
    pub pid: Option<u32>,
    /// Whether its launchd agent exists.
    pub autostart: bool,
    pub data_dir: String,
}

/// Older version first, by dotted fields.
pub open spec fn older_instance() -> spec_fn(RedisInstance, RedisInstance) -> bool {
    |a: RedisInstance, b: RedisInstance| dotted_order(a.version@, b.version@) == Order::Less
}

/// The installed versions ordered from oldest to newest (stable).
pub fn sort_instances(items: Vec<RedisInstance>) -> (r: Vec<RedisInstance>)
    ensures
        r@ == stable_sort(items@, older_instance()),
{
    let ghost rel = older_instance();
    let ghost s = items@;
    let n = items.len();
    let mut src = items;
    let mut rev: Vec<RedisInstance> = Vec::new();
    while src.len() > 0
        invariant
            src@.len() + rev@.len() == n,
            n == s.len(),
            forall|j: int| 0 <= j < src@.len() ==> #[trigger] src@[j] == s[j],
            forall|j: int| 0 <= j < rev@.len() ==> #[trigger] rev@[j] == s[n - 1 - j],
        decreases src@.len(),
    {
        let e = src.pop().unwrap();
        rev.push(e);
    }
    let mut r: Vec<RedisInstance> = Vec::new();
    let mut i: usize = 0;
    assert(s.take(0) =~= Seq::<RedisInstance>::empty());
    while i < n
        invariant
            n == s.len(),
            i <= n,
            rev@.len() == n - i,
            forall|j: int| 0 <= j < rev@.len() ==> #[trigger] rev@[j] == s[n - 1 - j],
            rel == older_instance(),
            r@ == stable_sort(s.take(i as int), rel),
        decreases n - i,
    {
        let e = rev.pop().unwrap();
        assert(e == s[i as int]);
        let ce = chars_of(e.version.as_str());
        let mut p: usize = r.len();
        while p > 0 && order_dotted(ce.as_slice(), chars_of(r[p - 1].version.as_str()).as_slice()) == Order::Less
            invariant
                p <= r@.len(),
                ce@ == e.version@,
                rel == older_instance(),
                forall|j: int| p <= j < r@.len() ==> (rel)(e, #[trigger] r@[j]),
            decreases p,
        {
            p = p - 1;
        }
        proof {
            lemma_insert_at(r@, e, rel, p as int);
            let t = s.take(i + 1);
            assert(t.drop_last() =~= s.take(i as int));
            assert(t.last() == e);
        }
        let ghost before = r@;
        r.insert(p, e);
        assert(r@ =~= before.take(p as int).push(e) + before.skip(p as int));
        i = i + 1;
    }
    assert(s.take(n as int) =~= s);
    r
}

/// The port of an instance: that of its configuration, else the default.
pub open spec fn instance_port(i: RedisInstance) -> u16 {
    match i.conf {
        Some(c) => c.port,
        None => DEFAULT_PORT,
    }
}

/// The password of an instance: that of its configuration, else none.
pub open spec fn instance_password(i: RedisInstance) -> Seq<char> {
    match i.conf {
        Some(c) => c.password@,
        None => seq![],
    }
}

/// The note shown where Redis is not offered.
pub open spec fn unsupported_note() -> Seq<char> {
    "当前平台暂不支持 Redis（官方无 Windows 发行版）"@
}

/// The state of Redis on `platform` from its installed versions: the
/// newest version is shown, every version is listed oldest first.  Only
/// macOS runs Redis; elsewhere it is not installed and a note says why.
pub fn info(platform: Platform, instances: Vec<RedisInstance>) -> (r: ServiceInfo)
    ensures
        r.kind == ServiceKind::Redis,
        r.name@ == NAME@,
        platform != Platform::MacOs ==> {
            &&& !r.installed
            &&& r.version is None
            &&& r.versions@.len() == 0
            &&& !r.running
            &&& r.port == DEFAULT_PORT
            &&& r.pid is None
            &&& r.password@ == Seq::<char>::empty()
            &&& !r.autostart
            &&& r.data_dir@ == Seq::<char>::empty()
            &&& r.note matches Some(n) && n@ == unsupported_note()
        },
        platform == Platform::MacOs ==> {
            let s = stable_sort(instances@, older_instance());
            &&& r.note is None
            &&& r.versions@.len() == s.len()
            &&& forall|k: int| 0 <= k < s.len() ==> {
                let v = #[trigger] r.versions@[k];
                &&& v.version@ == s[k].version@
                &&& v.running == s[k].running
                &&& v.port == instance_port(s[k])
                &&& v.autostart == s[k].autostart
            }
            &&& if s.len() == 0 {
                &&& !r.installed
                &&& r.version is None
                &&& !r.running
                &&& r.port == DEFAULT_PORT
                &&& r.pid is None
                &&& r.password@ == Seq::<char>::empty()
                &&& !r.autostart
                &&& r.data_dir@ == Seq::<char>::empty()
            } else {
                let l = s.last();
                &&& r.installed
                &&& r.version matches Some(v) && v@ == l.version@
                &&& r.running == l.running
                &&& r.port == instance_port(l)
                &&& r.pid == l.pid
                &&& r.password@ == instance_password(l)
                &&& r.autostart == l.autostart
                &&& r.data_dir@ == l.data_dir@
            }
        },
{
    if platform != Platform::MacOs {
        return ServiceInfo {
            kind: ServiceKind::Redis,
            name: owned(NAME),
            installed: false,
            version: None,
            versions: Vec::new(),
            running: false,
            port: DEFAULT_PORT,
            pid: None,
            password: String::new(),
            autostart: false,
            data_dir: String::new(),
            note: Some(owned("当前平台暂不支持 Redis（官方无 Windows 发行版）")),
        };
    }
    let sorted = sort_instances(instances);
    let mut versions: Vec<ServiceVersionInfo> = Vec::new();
    let mut i: usize = 0;
    while i < sorted.len()
        invariant
            i <= sorted@.len(),
            versions@.len() == i,
            forall|k: int| 0 <= k < i ==> {
                let v = #[trigger] versions@[k];
                &&& v.version@ == sorted@[k].version@
                &&& v.running == sorted@[k].running
                &&& v.port == instance_port(sorted@[k])
                &&& v.autostart == sorted@[k].autostart
            },
        decreases sorted@.len() - i,
    {
        let it = &sorted[i];
        let port = match &it.conf {
            Some(c) => c.port,
            None => DEFAULT_PORT,
        };
        versions.push(
            ServiceVersionInfo { version: it.version.clone(), running: it.running, port, autostart: it.autostart },
        );
        i = i + 1;
    }
    if sorted.len() == 0 {
        return ServiceInfo {
            kind: ServiceKind::Redis,
            name: owned(NAME),
            installed: false,
            version: None,
            versions,
            running: false,
            port: DEFAULT_PORT,
            pid: None,
            password: String::new(),
            autostart: false,
            data_dir: String::new(),
            note: None,
        };
    }
    let l = &sorted[sorted.len() - 1];
    let (port, password) = match &l.conf {
        Some(c) => (c.port, c.password.clone()),
        None => (DEFAULT_PORT, String::new()),
    };
    ServiceInfo {
        kind: ServiceKind::Redis,
        name: owned(NAME),
        installed: true,
        version: Some(l.version.clone()),
        versions,
        running: l.running,
        port,
        pid: l.pid,
        password,
        autostart: l.autostart,
        data_dir: l.data_dir.clone(),
        note: None,
    }
}

/// The programs built from the sources and installed.
pub open spec fn programs_spec() -> Seq<Seq<char>> {
    seq!["redis-server"@, "redis-cli"@, "redis-check-aof"@, "redis-check-rdb"@]
}

/// The programs built from the sources and installed.
pub fn programs() -> (r: Vec<String>)
    ensures
        strs_of(r@) == programs_spec(),
{
    let mut r: Vec<String> = Vec::new();
    r.push(owned("redis-server"));
    r.push(owned("redis-cli"));
    r.push(owned("redis-check-aof"));
    r.push(owned("redis-check-rdb"));
    assert(strs_of(r@) =~= programs_spec());
    r
}

/// The number of parallel jobs of the build: the processors available
/// (4 when unknown), at most 8.
pub open spec fn jobs_spec(parallelism: Option<usize>) -> nat {
    let n: nat = match parallelism {
        Some(n) => n as nat,
        None => 4,
    };
    if n < 8 {
        n
    } else {
        8
    }
}

/// The arguments of `make`: the jobs, then the programs only (the optional
/// modules are not built).
pub fn build_args(parallelism: Option<usize>) -> (r: Vec<String>)
    ensures
        strs_of(r@) == seq!["-j"@, decimal(jobs_spec(parallelism))] + programs_spec(),
{
    let n: usize = match parallelism {
        Some(n) => n,
        None => 4,
    };
    let jobs: usize = if n < 8 {
        n
    } else {
        8
    };
    let mut r: Vec<String> = Vec::new();
    r.push(owned("-j"));
    let mut d: Vec<char> = Vec::new();
    push_decimal(&mut d, jobs as u64);
    r.push(string_of(d.as_slice()));
    let p = programs();
    let mut i: usize = 0;
    while i < p.len()
        invariant
            i <= p@.len(),
            strs_of(p@) == programs_spec(),
            strs_of(r@) == seq!["-j"@, decimal(jobs_spec(parallelism))] + programs_spec().take(i as int),
        decreases p@.len() - i,
    {
        let ghost before = strs_of(r@);
        r.push(owned(p[i].as_str()));
        assert(strs_of(r@) =~= before.push(p@[i as int]@));
        assert(programs_spec().take(i + 1) =~= programs_spec().take(i as int).push(programs_spec()[i as int]));
        i = i + 1;
    }
    assert(programs_spec().take(4) =~= programs_spec());
    r
}

/// Where the sources of `version` are downloaded from: the official
/// releases, then GitHub's tag archive.
pub open spec fn source_urls_spec(version: Seq<char>) -> Seq<Seq<char>> {
    seq![
        "https://download.redis.io/releases/redis-"@ + version + ".tar.gz"@,
        "https://github.com/redis/redis/archive/refs/tags/"@ + version + ".tar.gz"@,
    ]
}

/// Where the sources of `version` are downloaded from, in order.
pub fn source_urls(version: &str) -> (r: Vec<String>)
    ensures
        strs_of(r@) == source_urls_spec(version@),
{
    let mut a = chars_of("https://download.redis.io/releases/redis-");
    push_str(&mut a, version);
    push_str(&mut a, ".tar.gz");
    let mut b = chars_of("https://github.com/redis/redis/archive/refs/tags/");
    push_str(&mut b, version);
    push_str(&mut b, ".tar.gz");
    let mut r: Vec<String> = Vec::new();
    r.push(string_of(a.as_slice()));
    r.push(string_of(b.as_slice()));
    assert(strs_of(r@) =~= source_urls_spec(version@));
    r
}

/// The log of a version under the logs directory `logs_dir`.
pub open spec fn log_path_spec(logs_dir: Seq<char>, version: Seq<char>) -> Seq<char> {
    logs_dir + "/redis-"@ + version + ".log"@
}

/// The log of a version.
pub fn log_path(logs_dir: &str, version: &str) -> (r: String)
    ensures
        r@ == log_path_spec(logs_dir@, version@),
{
    let mut s = chars_of(logs_dir);
    push_str(&mut s, "/redis-");
    push_str(&mut s, version);
    push_str(&mut s, ".log");
    string_of(s.as_slice())
}

/// The last `lines` lines of the log of a version, from `content` read at
/// its end (`truncated` when the read began after its start).
pub fn tail_log(content: &str, truncated: bool, lines: usize) -> (r: String)
    ensures
        r@ == tail_spec(content@, truncated, lines as nat),
{
    crate::services::tail_text(content, truncated, lines)
}

/// Whether starting a version launches its server: refused when it is
/// not installed; nothing to do when it runs; refused when its
/// configuration is missing or its port (`port`, that of its
/// configuration) is taken.
pub open spec fn start_spec(version: Seq<char>, installed: bool, running: bool, conf_exists: bool, port: u16, port_in_use: bool) -> Result<bool, Seq<char>> {
    if !installed {
        Err("Redis "@ + version + " 未安装"@)
    } else if running {
        Ok(false)
    } else if !conf_exists {
        Err("配置文件缺失，请重新安装"@)
    } else if port_in_use {
        Err("端口 "@ + decimal(port as nat) + " 已被占用（可能是旧实例未退出或其他程序），请先停止占用方或更换端口"@)
    } else {
        Ok(true)
    }
}

/// Whether starting a version launches its server (`Ok(true)`), has
/// nothing to do (`Ok(false)`), or is refused.
pub fn start_check(version: &str, installed: bool, running: bool, conf_exists: bool, port: u16, port_in_use: bool) -> (r: Result<bool, String>)
    ensures
        match start_spec(version@, installed, running, conf_exists, port, port_in_use) {
            Ok(b) => r == Ok::<bool, String>(b),
            Err(e) => r matches Err(m) && m@ == e,
        },
{
    if !installed {
        let mut m = chars_of("Redis ");
        push_str(&mut m, version);
        push_str(&mut m, " 未安装");
        return Err(string_of(m.as_slice()));
    }
    if running {
        return Ok(false);
    }
    if !conf_exists {
        return Err(owned("配置文件缺失，请重新安装"));
    }
    if port_in_use {
        let mut m = chars_of("端口 ");
        push_decimal(&mut m, port as u64);
        push_str(&mut m, " 已被占用（可能是旧实例未退出或其他程序），请先停止占用方或更换端口");
        return Err(string_of(m.as_slice()));
    }
    Ok(true)
}

} // verus!

//! What the shell reads from the `dsh` web server it starts, and how it picks
//! the `dsh` executable among the ones it finds.

use vstd::prelude::*;
use vstd::string::*;
use crate::text::{
    all_decimal_digits, decimal, decimal_text, decimal_value, is_decimal_digit,
    lemma_decimal_text, trim_end, trim_start, without_plus, char_slice, last_index_of, lemma_text_less_irreflexive, lemma_text_less_transitive, parse_u16,
    parsed_u16, rfind_char, text_less, text_lt, trim, trimmed,
};

verus! {

/// The port that a line of `dsh` output announces: the text after the line's
/// last `:`, without surrounding white space, read as a decimal `u16`
/// (`dsh web: http://127.0.0.1:49473` announces 49473).
pub open spec fn announced_port(line: Seq<char>) -> Option<u16> {
    match last_index_of(line, ':') {
        None => None,
        Some(k) => parsed_u16(trimmed(line.subrange(k + 1, line.len() as int))),
    }
}

/// Reads the port that a line of `dsh` output announces, if it announces one.
pub fn parse_port_from_line(line: &str) -> (r: Option<u16>)
    ensures
        r == announced_port(line@),
{
    let n = line.unicode_len();
    match rfind_char(line, ':') {
        None => None,
        Some(k) => {
            let rest = char_slice(line, k + 1, n);
            let t = trim(rest.as_str());
            parse_u16(t.as_str())
        },
    }
}


/// Reads the output of `which dsh`: the path it prints, without surrounding
/// white space, when that is not empty.
pub fn dsh_from_which(output: &str) -> (r: Option<String>)
    ensures
        r matches Some(p) ==> p@ == trimmed(output@) && p@.len() > 0,
        r is None ==> trimmed(output@).len() == 0,
{
    let t = trim(output);
    if t.as_str().unicode_len() == 0 {
        None
    } else {
        Some(t)
    }
}

/// Picks, among the names of the installed Node versions that hold a `dsh`,
/// the one whose `bin/dsh` path sorts last: the position of a name that no
/// other name comes after.
pub fn newest_version(names: &Vec<String>) -> (r: Option<usize>)
    ensures
        r is None <==> names.len() == 0,
        r matches Some(i) ==> i < names.len() && forall|k: int|
            0 <= k < names.len() ==> !text_less(names@[i as int]@, #[trigger] names@[k]@),
{
    if names.len() == 0 {
        return None;
    }
    let mut best: usize = 0;
    let mut k: usize = 1;
    proof {
        lemma_text_less_irreflexive(names@[0]@);
    }
    while k < names.len()
        invariant
            1 <= k <= names.len(),
            best < k,
            forall|j: int| 0 <= j < k ==> !text_less(names@[best as int]@, #[trigger] names@[j]@),
        decreases names.len() - k,
    {
        if text_lt(names[best].as_str(), names[k].as_str()) {
            let ghost old_best = best;
            proof {
                lemma_text_less_irreflexive(names@[k as int]@);
                assert forall|j: int| 0 <= j < k + 1 implies !text_less(names@[k as int]@, #[trigger] names@[j]@) by {
                    if j < k {
                        if text_less(names@[k as int]@, names@[j]@) {
                            lemma_text_less_transitive(names@[old_best as int]@, names@[k as int]@, names@[j]@);
                        }
                    }
                }
            }
            best = k;
        }
        k = k + 1;
    }
    Some(best)
}


/// The address of the web UI that `dsh` serves on `port`.
pub open spec fn ui_url_text(port: u16) -> Seq<char> {
    "http://127.0.0.1:"@ + decimal_text(port as nat)
}

/// The address of the web UI that `dsh` serves on `port`, as the shell
/// reports it and loads it.
pub fn ui_url(port: u16) -> (r: String)
    ensures
        r@ == ui_url_text(port),
{
    let mut r = "http://127.0.0.1:".to_owned();
    let d = decimal(port);
    r.append(d.as_str());
    r
}

proof fn lemma_last_index_of_after(p: Seq<char>, d: Seq<char>, c: char)
    requires
        forall|k: int| 0 <= k < d.len() ==> d[k] != c,
    ensures
        last_index_of(p + d, c) == last_index_of(p, c),
    decreases d.len(),
{
    if d.len() == 0 {
        assert(p + d =~= p);
    } else {
        assert((p + d).drop_last() =~= p + d.drop_last());
        assert((p + d).last() == d.last());
        lemma_last_index_of_after(p, d.drop_last(), c);
    }
}

/// A line that ends with `:` and the decimal text of a port announces that
/// port; in particular the shell's own address for a port reads back as it.
pub proof fn lemma_port_line_round_trip(prefix: Seq<char>, port: u16)
    requires
        prefix.len() > 0,
        prefix.last() == ':',
    ensures
        announced_port(prefix + decimal_text(port as nat)) == Some(port),
{
    let d = decimal_text(port as nat);
    lemma_decimal_text(port as nat);
    assert forall|k: int| 0 <= k < d.len() implies d[k] != ':' by {
        assert(is_decimal_digit(d[k]));
    }
    lemma_last_index_of_after(prefix, d, ':');
    assert(prefix.drop_last() + seq![':'] =~= prefix);
    assert(last_index_of(prefix, ':') == Some(prefix.len() - 1));
    let line = prefix + d;
    assert(line.subrange(prefix.len() as int, line.len() as int) =~= d);
    assert(is_decimal_digit(d[0]));
    assert(is_decimal_digit(d[d.len() - 1]));
    assert(trim_start(d) == d);
    assert(trim_end(d) == d);
    assert(without_plus(d) == d);
}

/// The shell's address for a port reads back as that port.
pub proof fn lemma_ui_url_announces_port(port: u16)
    ensures
        announced_port(ui_url_text(port)) == Some(port),
{
    reveal_strlit("http://127.0.0.1:");
    lemma_port_line_round_trip("http://127.0.0.1:"@, port);
}

/// The places the shell looks for the `dsh` executable.
#[derive(PartialEq, Eq, Structural, Debug, Clone, Copy)]
pub enum DshSource {
    /// The path in `$DSH_BIN`.
    EnvVar,
    /// The `dsh` that `which dsh` finds on the `PATH`.
    OnPath,
    /// The newest managed Node installation that holds a `dsh`.
    ManagedNode,
}

/// What the search for `dsh` does next.
#[derive(Debug)]
pub enum DshSearch {
    /// Look at this source.
    Look(DshSource),
    /// This is the executable.
    Found(String),
    /// No source has one.
    NotFound,
}

/// The source looked at after `s`, in the order `$DSH_BIN`, the `PATH`, the
/// managed Node installations.
pub open spec fn next_source(s: DshSource) -> Option<DshSource> {
    match s {
        DshSource::EnvVar => Some(DshSource::OnPath),
        DshSource::OnPath => Some(DshSource::ManagedNode),
        DshSource::ManagedNode => None,
    }
}

/// Where the search for `dsh` starts: `$DSH_BIN`.
pub fn first_dsh_source() -> (r: DshSource)
    ensures
        r == DshSource::EnvVar,
{
    DshSource::EnvVar
}

/// The next step of the search for `dsh`, given what looking at `source`
/// found: that path when it found one, else the next source, else nothing.
pub fn dsh_search_step(source: DshSource, found: Option<String>) -> (r: DshSearch)
    ensures
        match found {
            Some(p) => r matches DshSearch::Found(q) && q@ == p@,
            None => match next_source(source) {
                Some(n) => r matches DshSearch::Look(m) && m == n,
                None => r is NotFound,
            },
        },
{
    match found {
        Some(p) => DshSearch::Found(p),
        None => match source {
            DshSource::EnvVar => DshSearch::Look(DshSource::OnPath),
            DshSource::OnPath => DshSearch::Look(DshSource::ManagedNode),
            DshSource::ManagedNode => DshSearch::NotFound,
        },
    }
}

/// Reads `$DSH_BIN`: its value, when that is not empty and names an existing
/// file (`exists` tells whether it does).
pub fn dsh_from_env(value: &str, exists: bool) -> (r: Option<String>)
    ensures
        r matches Some(p) ==> p@ == value@,
        r is Some <==> value@.len() > 0 && exists,
{
    if value.unicode_len() > 0 && exists {
        Some(value.to_owned())
    } else {
        None
    }
}

/// What the shell learns while it waits for `dsh web` to announce its port.
#[derive(Debug)]
pub enum OutputEvent {
    /// `dsh` printed this line.
    Line(String),
    /// Nothing came for a while.
    Quiet,
    /// `dsh`'s output was closed.
    Closed,
    /// The time to wait is over.
    TimedOut,
}

/// Where waiting for the port stands.
#[derive(PartialEq, Eq, Structural, Debug, Clone, Copy)]
pub enum PortWatch {
    /// Keep reading.
    Waiting,
    /// `dsh` announced this port.
    Announced(u16),
    /// No port will come.
    GaveUp,
}

/// The state of waiting for the port after an event: a line that announces
/// a port gives it; another line, or a quiet spell, means waiting on; the
/// output closing, or the time running out, means giving up.
pub open spec fn port_watch_after(e: OutputEvent) -> PortWatch {
    match e {
        OutputEvent::Line(l) => match announced_port(l@) {
            Some(p) => PortWatch::Announced(p),
            None => PortWatch::Waiting,
        },
        OutputEvent::Quiet => PortWatch::Waiting,
        OutputEvent::Closed => PortWatch::GaveUp,
        OutputEvent::TimedOut => PortWatch::GaveUp,
    }
}

/// No line of output ends the wait, an empty one or one without a port
/// neither: a line gives the port it announces and otherwise the wait goes
/// on; only the output closing or the time running out gives up. So a
/// banner that follows any other lines is still read.
pub proof fn lemma_only_the_end_of_output_gives_up(e: OutputEvent)
    ensures
        port_watch_after(e) is GaveUp <==> (e is Closed || e is TimedOut),
        e is Quiet ==> port_watch_after(e) is Waiting,
        e matches OutputEvent::Line(l) ==> (port_watch_after(e) is Waiting <==> announced_port(
            l@,
        ) is None),
        e matches OutputEvent::Line(l) ==> (forall|p: u16|
            port_watch_after(e) == PortWatch::Announced(p) <==> announced_port(l@) == Some(p)),
{
}

/// Decides, on each event while `dsh web` starts, whether its port is known,
/// whether to wait on, or whether to give up.
pub fn watch_output(event: &OutputEvent) -> (r: PortWatch)
    ensures
        r == port_watch_after(*event),
        r is GaveUp <==> (event is Closed || event is TimedOut),
        event matches OutputEvent::Line(l) ==> (r == match announced_port(l@) {
            Some(p) => PortWatch::Announced(p),
            None => PortWatch::Waiting,
        }),
        event is Quiet ==> r is Waiting,
{
    match event {
        OutputEvent::Line(l) => match parse_port_from_line(l.as_str()) {
            Some(p) => PortWatch::Announced(p),
            None => PortWatch::Waiting,
        },
        OutputEvent::Quiet => PortWatch::Waiting,
        OutputEvent::Closed => PortWatch::GaveUp,
        OutputEvent::TimedOut => PortWatch::GaveUp,
    }
}

/// Why starting `dsh web` failed.
#[derive(Debug, Clone)]
pub enum HarnessError {
    /// The process could not be started; the reason.
    CannotStart(String),
    /// Its output could not be read.
    NoOutput,
    /// It announced no port.
    NoPort,
    /// Its server did not answer on this port in time.
    NotReady(u16),
}

/// The message shown for a failure to start `dsh web`.
pub open spec fn harness_message(e: HarnessError) -> Seq<char> {
    match e {
        HarnessError::CannotStart(why) => "启动 dsh 失败: "@ + why@,
        HarnessError::NoOutput => "无法读取 dsh 输出"@,
        HarnessError::NoPort => "无法从 dsh 输出解析端口（可能启动失败）"@,
        HarnessError::NotReady(port) => "dsh 服务在端口 "@ + decimal_text(port as nat)
            + " 30 秒内未就绪"@,
    }
}

impl HarnessError {
    /// The message shown for this failure.
    pub fn message(&self) -> (r: String)
        ensures
            r@ == harness_message(*self),
    {
        match self {
            HarnessError::CannotStart(why) => {
                let mut m = "启动 dsh 失败: ".to_owned();
                m.append(why.as_str());
                m
            },
            HarnessError::NoOutput => "无法读取 dsh 输出".to_owned(),
            HarnessError::NoPort => "无法从 dsh 输出解析端口（可能启动失败）".to_owned(),
            HarnessError::NotReady(port) => {
                let mut m = "dsh 服务在端口 ".to_owned();
                let d = decimal(*port);
                m.append(d.as_str());
                m.append(" 30 秒内未就绪");
                m
            },
        }
    }
}

} // verus!

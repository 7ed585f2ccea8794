use vstd::prelude::*;
use vstd::string::{StrSliceExecFns, StringExecFns};

use crate::decimal::{is_numeral, is_numeral_text, scan, scan_char, scan_start, unsigned_part};
use crate::KfError;

verus! {

/// The characters with Unicode's `White_Space` property.
pub open spec fn is_space(c: char) -> bool {
    ('\u{9}' <= c && c <= '\u{d}') || c == ' ' || c == '\u{85}' || c == '\u{a0}' || c
        == '\u{1680}' || ('\u{2000}' <= c && c <= '\u{200a}') || c == '\u{2028}' || c
        == '\u{2029}' || c == '\u{202f}' || c == '\u{205f}' || c == '\u{3000}'
}

/// The words of a line: its maximal runs of characters that are not white
/// space, in order.
pub open spec fn words_of(s: Seq<char>) -> Seq<Seq<char>>
    decreases s.len(),
{
    if s.len() == 0 {
        Seq::empty()
    } else {
        let w = words_of(s.drop_last());
        let c = s.last();
        if is_space(c) {
            w
        } else if s.len() >= 2 && !is_space(s[s.len() - 2]) {
            w.drop_last().push(w.last().push(c))
        } else {
            w.push(seq![c])
        }
    }
}

/// Relies on `str::split_whitespace`: the maximal runs of characters that are
/// not `White_Space`, in order.
#[verifier::external_body]
fn split_words(line: &str) -> (r: Vec<String>)
    ensures
        r.deep_view() == words_of(line@),
{
    line.split_whitespace().map(|w| w.to_string()).collect()
}

/// The meaning of one line of an observation log; each number is kept as the
/// numeral that was read.
pub enum LineView {
    TimeSpan(Seq<char>),
    SimulationTime(Seq<char>),
    Record(Seq<char>, Seq<Seq<char>>),
}

/// Whether every word from the `from`-th on is a numeral.
pub open spec fn numerals_from(ws: Seq<Seq<char>>, from: int) -> bool {
    forall|i: int| from <= i < ws.len() ==> is_numeral(#[trigger] ws[i])
}

/// One line, given as its words: `time_span <real>` and `simulation_time <real>`
/// set the two scalars from their second word, and any further numerals are
/// ignored; any other line is a record, a timestamp followed by the observed
/// values. Every word after the key is a numeral.
pub open spec fn line_of(ws: Seq<Seq<char>>) -> Result<LineView, KfError> {
    if ws.len() == 0 {
        Err(KfError::ParseError)
    } else if ws[0] == "time_span"@ {
        if ws.len() >= 2 && numerals_from(ws, 1) {
            Ok(LineView::TimeSpan(ws[1]))
        } else {
            Err(KfError::ParseError)
        }
    } else if ws[0] == "simulation_time"@ {
        if ws.len() >= 2 && numerals_from(ws, 1) {
            Ok(LineView::SimulationTime(ws[1]))
        } else {
            Err(KfError::ParseError)
        }
    } else if numerals_from(ws, 0) {
        Ok(LineView::Record(ws[0], ws.drop_first()))
    } else {
        Err(KfError::ParseError)
    }
}

/// An observation: its timestamp and the observed vector.
pub struct Observation {
    pub time: String,
    pub values: Vec<String>,
}

/// A parsed line of an observation log.
pub enum LogLine {
    TimeSpan(String),
    SimulationTime(String),
    Record(Observation),
}

impl LogLine {
    /// The line's scalar, or its record's timestamp, is a numeral.
    pub open spec fn numerals(&self) -> bool {
        match self {
            LogLine::TimeSpan(d) => is_numeral(d@),
            LogLine::SimulationTime(d) => is_numeral(d@),
            LogLine::Record(o) => is_numeral(o.time@),
        }
    }

    pub open spec fn view(&self) -> LineView {
        match self {
            LogLine::TimeSpan(d) => LineView::TimeSpan(d@),
            LogLine::SimulationTime(d) => LineView::SimulationTime(d@),
            LogLine::Record(o) => LineView::Record(o.time@, o.values.deep_view()),
        }
    }
}

/// Whether two texts hold the same characters.
fn same_text(a: &str, b: &str) -> (r: bool)
    ensures
        r == (a@ == b@),
{
    let n = a.unicode_len();
    if n != b.unicode_len() {
        return false;
    }
    let mut i: usize = 0;
    while i < n
        invariant
            n == a@.len() == b@.len(),
            i <= n,
            a@.take(i as int) == b@.take(i as int),
        decreases n - i,
    {
        if a.get_char(i) != b.get_char(i) {
            return false;
        }
        assert(a@.take(i + 1) =~= a@.take(i as int).push(a@[i as int]));
        assert(b@.take(i + 1) =~= b@.take(i as int).push(b@[i as int]));
        i = i + 1;
    }
    assert(a@.take(n as int) =~= a@);
    assert(b@.take(n as int) =~= b@);
    true
}

/// Whether every word from the `from`-th on is a numeral.
fn all_numerals_from(ws: &Vec<String>, from: usize) -> (r: bool)
    ensures
        r == numerals_from(ws.deep_view(), from as int),
{
    let ghost w = ws.deep_view();
    let mut i: usize = from;
    while i < ws.len()
        invariant
            w == ws.deep_view(),
            from <= i,
            forall|j: int| from <= j < i ==> is_numeral(#[trigger] w[j]),
        decreases ws.len() - i,
    {
        assert(w[i as int] == ws[i as int]@);
        if !is_numeral_text(ws[i].as_str()) {
            assert(!is_numeral(w[i as int]));
            return false;
        }
        i = i + 1;
    }
    true
}

/// Reads a line of an observation log given as its words.
pub fn parse_words(ws: &Vec<String>) -> (r: Result<LogLine, KfError>)
    ensures
        match r {
            Ok(l) => line_of(ws.deep_view()) == Ok::<LineView, KfError>(l.view()) && l.numerals(),
            Err(e) => line_of(ws.deep_view()) == Err::<LineView, KfError>(e),
        },
{
    let ghost w = ws.deep_view();
    if ws.len() == 0 {
        return Err(KfError::ParseError);
    }
    assert(w[0] == ws[0]@);
    let is_span = same_text(ws[0].as_str(), "time_span");
    let is_sim = same_text(ws[0].as_str(), "simulation_time");
    if is_span || is_sim {
        if ws.len() < 2 || !all_numerals_from(ws, 1) {
            return Err(KfError::ParseError);
        }
        assert(w[1] == ws[1]@);
        assert(is_numeral(w[1]));
        let d = ws[1].clone();
        if is_span {
            Ok(LogLine::TimeSpan(d))
        } else {
            Ok(LogLine::SimulationTime(d))
        }
    } else {
        if !all_numerals_from(ws, 0) {
            return Err(KfError::ParseError);
        }
        assert(is_numeral(w[0]));
        let time = ws[0].clone();
        let mut values: Vec<String> = Vec::new();
        let mut i: usize = 1;
        while i < ws.len()
            invariant
                w == ws.deep_view(),
                1 <= i <= ws.len(),
                time@ == w[0],
                values.deep_view() == w.drop_first().take(i - 1),
            decreases ws.len() - i,
        {
            assert(w[i as int] == ws[i as int]@);
            let ghost before = values.deep_view();
            values.push(ws[i].clone());
            assert(values.deep_view() =~= before.push(w[i as int]));
            assert(w.drop_first().take(i as int) =~= w.drop_first().take(i - 1).push(w[i as int]));
            i = i + 1;
        }
        assert(w.drop_first().take(ws.len() - 1) =~= w.drop_first());
        Ok(LogLine::Record(Observation { time, values }))
    }
}

/// Reads one line of an observation log.
pub fn parse_line(line: &str) -> (r: Result<LogLine, KfError>)
    ensures
        match r {
            Ok(l) => line_of(words_of(line@)) == Ok::<LineView, KfError>(l.view()) && l.numerals(),
            Err(e) => line_of(words_of(line@)) == Err::<LineView, KfError>(e),
        },
{
    let ws = split_words(line);
    parse_words(&ws)
}

/// What an observation log holds: its records in file order, the nominal
/// interval between observations, and the length of the run.
pub struct LogView {
    pub records: Seq<(Seq<char>, Seq<Seq<char>>)>,
    pub observation_span: Seq<char>,
    pub simulation_time_length: Seq<char>,
}

/// The numeral that both scalars hold before a line sets them.
pub open spec fn zero() -> Seq<char> {
    seq!['0']
}

/// The log before any line: no records, both scalars zero.
pub open spec fn empty_log() -> LogView {
    LogView { records: Seq::empty(), observation_span: zero(), simulation_time_length: zero() }
}

/// The log after one more line: a scalar line replaces that scalar, a record is appended.
pub open spec fn apply_line(l: LogView, x: LineView) -> LogView {
    match x {
        LineView::TimeSpan(d) => LogView { observation_span: d, ..l },
        LineView::SimulationTime(d) => LogView { simulation_time_length: d, ..l },
        LineView::Record(t, v) => LogView { records: l.records.push((t, v)), ..l },
    }
}

/// The log that a sequence of lines describes, or the error of its first bad line.
pub open spec fn log_of_lines(lines: Seq<Seq<char>>) -> Result<LogView, KfError>
    decreases lines.len(),
{
    if lines.len() == 0 {
        Ok(empty_log())
    } else {
        match log_of_lines(lines.drop_last()) {
            Err(e) => Err(e),
            Ok(l) => match line_of(words_of(lines.last())) {
                Err(e) => Err(e),
                Ok(x) => Ok(apply_line(l, x)),
            },
        }
    }
}

/// A parsed observation log.
pub struct ObservationLog {
    pub records: Vec<Observation>,
    pub observation_span: String,
    pub simulation_time_length: String,
}

impl ObservationLog {
    pub open spec fn view(&self) -> LogView {
        LogView {
            records: self.records@.map_values(|o: Observation| (o.time@, o.values.deep_view())),
            observation_span: self.observation_span@,
            simulation_time_length: self.simulation_time_length@,
        }
    }

    /// Every number of the log is a numeral.
    pub open spec fn wf(&self) -> bool {
        &&& is_numeral(self.observation_span@)
        &&& is_numeral(self.simulation_time_length@)
        &&& forall|i: int| 0 <= i < self.records@.len() ==> is_numeral(#[trigger] self.records@[i].time@)
    }

    /// Reads an observation log from its lines.
    pub fn parse(lines: &Vec<String>) -> (r: Result<ObservationLog, KfError>)
        ensures
            match r {
                Ok(l) => log_of_lines(lines.deep_view()) == Ok::<LogView, KfError>(l.view()) && l.wf(),
                Err(e) => log_of_lines(lines.deep_view()) == Err::<LogView, KfError>(e),
            },
    {
        let ghost ls = lines.deep_view();
        let mut log = ObservationLog {
            records: Vec::new(),
            observation_span: String::from_str("0"),
            simulation_time_length: String::from_str("0"),
        };
        proof {
            reveal_strlit("0");
            assert(log.observation_span@ =~= zero());
            assert(log.simulation_time_length@ =~= zero());
            let z = zero();
            assert(unsigned_part(z) =~= z);
            assert(z.drop_last() =~= Seq::<char>::empty());
            assert(scan(Seq::<char>::empty()) == scan_start());
            assert(z.last() == '0');
            assert(scan(z) == scan_char(scan(z.drop_last()), z.last()));
            assert(scan(z) == scan_char(scan_start(), '0'));
            assert(is_numeral(z));
        }
        assert(log.view().records =~= Seq::empty());
        assert(ls.take(0) =~= Seq::empty());
        let mut i: usize = 0;
        while i < lines.len()
            invariant
                ls == lines.deep_view(),
                i <= lines.len(),
                log_of_lines(ls.take(i as int)) == Ok::<LogView, KfError>(log.view()),
                log.wf(),
            decreases lines.len() - i,
        {
            assert(ls.take(i + 1).drop_last() =~= ls.take(i as int));
            assert(ls.take(i + 1).last() == lines[i as int]@);
            let line = parse_line(lines[i].as_str());
            match line {
                Err(e) => {
                    proof {
                        lemma_error_persists(ls, i + 1);
                    }
                    return Err(e);
                },
                Ok(LogLine::TimeSpan(d)) => {
                    log.observation_span = d;
                },
                Ok(LogLine::SimulationTime(d)) => {
                    log.simulation_time_length = d;
                },
                Ok(LogLine::Record(o)) => {
                    let ghost old_records = log.view().records;
                    log.records.push(o);
                    assert(log.view().records =~= old_records.push((o.time@, o.values.deep_view())));
                },
            }
            i = i + 1;
        }
        assert(ls.take(lines.len() as int) =~= ls);
        Ok(log)
    }
}

/// An error on some line is the error of every longer run of lines.
proof fn lemma_error_persists(ls: Seq<Seq<char>>, j: int)
    requires
        0 <= j <= ls.len(),
        log_of_lines(ls.take(j)) is Err,
    ensures
        log_of_lines(ls) == log_of_lines(ls.take(j)),
    decreases ls.len(),
{
    if j < ls.len() {
        assert(ls.drop_last().take(j) =~= ls.take(j));
        lemma_error_persists(ls.drop_last(), j);
    } else {
        assert(ls.take(j) =~= ls);
    }
}

/// Parsing is deterministic: the same lines always give the same log, or the same error.
pub proof fn lemma_parse_deterministic(
    lines: Seq<Seq<char>>,
    first: Result<LogView, KfError>,
    second: Result<LogView, KfError>,
)
    requires
        first == log_of_lines(lines),
        second == log_of_lines(lines),
    ensures
        first == second,
{
}

} // verus!

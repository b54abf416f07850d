use vstd::prelude::*;
use crate::message::CanFrame;
use crate::trace_format::{TraceFormat, WallClock, csv_line, trc_row, header, header_text, format_csv_row, format_trc_row};
use crate::text::{chars_of, digits, padded, push_digits, string_of};

verus! {

/// Frames between two flushes.
pub const FLUSH_EVERY: u64 = 100;
/// Bytes in a mebibyte.
pub const MIB: u128 = 1_048_576;

/// How a trace is written.
#[derive(Debug, Clone)]
pub struct TraceLoggerConfig {
    pub format: TraceFormat,
    pub file_path: String,
    pub auto_split: bool,
    pub max_file_size_mb: Option<u64>,
    pub max_file_duration_sec: Option<u64>,
}

impl Default for TraceLoggerConfig {
    fn default() -> (r: TraceLoggerConfig)
        ensures
            r.format == TraceFormat::Csv,
            r.file_path@ == "trace.csv"@,
            !r.auto_split,
            r.max_file_size_mb is None,
            r.max_file_duration_sec is None,
    {
        TraceLoggerConfig {
            format: TraceFormat::Csv,
            file_path: String::from_str("trace.csv"),
            auto_split: false,
            max_file_size_mb: None,
            max_file_duration_sec: None,
        }
    }
}

/// What the writer does for one frame: write `line`; then, when `rotate_to` is set, flush
/// and continue in that file, starting with `header`; then flush when `flush` is set. The
/// size of the current file counts its header and its rows.
pub struct WriteStep {
    pub line: String,
    pub rotate_to: Option<String>,
    pub header: Option<String>,
    pub flush: bool,
}

/// The writer of a trace: its configuration and what it has written.
pub struct TraceLogger {
    pub config: TraceLoggerConfig,
    pub frames_written: u64,
    pub bytes_in_file: u64,
    pub started: bool,
}

/// The index of the last `c` in `s`, or -1.
pub open spec fn last_of(s: Seq<char>, c: char) -> int
    decreases s.len(),
{
    if s.len() == 0 {
        -1
    } else if s.last() == c {
        s.len() - 1
    } else {
        last_of(s.drop_last(), c)
    }
}

pub proof fn lemma_last_of(s: Seq<char>, c: char)
    ensures
        -1 <= last_of(s, c) < s.len(),
        last_of(s, c) >= 0 ==> s[last_of(s, c)] == c,
        forall|i: int| last_of(s, c) < i < s.len() ==> s[i] != c,
    decreases s.len(),
{
    if s.len() > 0 && s.last() != c {
        lemma_last_of(s.drop_last(), c);
        assert forall|i: int| last_of(s, c) < i < s.len() implies s[i] != c by {
            if i < s.len() - 1 {
                assert(s[i] == s.drop_last()[i]);
            }
        }
    }
}

pub fn last_index(s: &Vec<char>, c: char) -> (r: Option<usize>)
    ensures
        match r {
            None => last_of(s@, c) == -1,
            Some(i) => last_of(s@, c) == i && i < s@.len(),
        },
{
    let mut n: usize = s.len();
    assert(s@.subrange(0, s@.len() as int) =~= s@);
    while n > 0
        invariant
            n <= s@.len(),
            last_of(s@, c) == last_of(s@.subrange(0, n as int), c),
        decreases n,
    {
        if s[n - 1] == c {
            return Some(n - 1);
        }
        assert(s@.subrange(0, n as int).drop_last() =~= s@.subrange(0, n - 1));
        n = n - 1;
    }
    None
}

/// The path of split file `n` of `path`: `<stem>_<n>.<ext>` in the same directory; the
/// stem is "trace" when the file name is empty and the extension "csv" when it has none.
pub open spec fn split_path(path: Seq<char>, n: u64) -> Seq<char> {
    let slash = last_of(path, '/');
    let dir = path.subrange(0, slash + 1);
    let name = path.subrange(slash + 1, path.len() as int);
    let dot = last_of(name, '.');
    let stem = if dot > 0 { name.subrange(0, dot) } else { name };
    let ext = if dot > 0 { name.subrange(dot + 1, name.len() as int) } else { "csv"@ };
    dir + (if stem.len() == 0 { "trace"@ } else { stem }) + seq!['_'] + digits(n as nat, 10) + seq!['.'] + ext
}

fn push_all(out: &mut Vec<char>, s: &Vec<char>, a: usize, b: usize)
    requires
        a <= b <= s@.len(),
    ensures
        final(out)@ == old(out)@ + s@.subrange(a as int, b as int),
{
    let ghost start = out@;
    let mut i: usize = a;
    while i < b
        invariant
            a <= i <= b <= s@.len(),
            out@ == start + s@.subrange(a as int, i as int),
        decreases b - i,
    {
        out.push(s[i]);
        i = i + 1;
        assert(out@ =~= start + s@.subrange(a as int, i as int));
    }
}

/// The path of split file `n` of `path`.
pub fn generate_split_path(path: &str, n: u64) -> (r: String)
    ensures
        r@ == split_path(path@, n),
{
    let p = chars_of(path);
    proof {
        lemma_last_of(p@, '/');
    }
    let plen = p.len();
    let slash: usize = match last_index(&p, '/') {
        None => 0,
        Some(i) => {
            assert(i < plen);
            i + 1
        },
    };
    let ghost dir = p@.subrange(0, slash as int);
    let ghost name = p@.subrange(slash as int, p@.len() as int);
    let nm = crate::dbc_parser::sub_chars(&p, slash, p.len());
    proof {
        lemma_last_of(nm@, '.');
    }
    let dot = last_index(&nm, '.');
    let mut out: Vec<char> = Vec::new();
    push_all(&mut out, &p, 0, slash);
    let (stem_end, has_ext) = match dot {
        Some(d) => if d > 0 { (d, true) } else { (nm.len(), false) },
        None => (nm.len(), false),
    };
    if stem_end == 0 {
        let t = chars_of("trace");
        push_all(&mut out, &t, 0, t.len());
        assert(t@.subrange(0, t@.len() as int) =~= t@);
    } else {
        push_all(&mut out, &nm, 0, stem_end);
    }
    out.push('_');
    push_digits(&mut out, n, 10, 0);
    assert(padded(n as nat, 10, 0) == digits(n as nat, 10));
    out.push('.');
    if has_ext {
        push_all(&mut out, &nm, stem_end + 1, nm.len());
    } else {
        let t = chars_of("csv");
        push_all(&mut out, &t, 0, t.len());
        assert(t@.subrange(0, t@.len() as int) =~= t@);
    }
    assert(nm@.subrange(0, nm@.len() as int) =~= nm@);
    assert(out@ =~= split_path(path@, n));
    string_of(out.as_slice())
}

/// Whether a file is due for rotation: splitting is on, and the file has grown past its
/// size limit or the time past its duration limit.
pub open spec fn due(c: TraceLoggerConfig, bytes: u64, elapsed_sec: u64) -> bool {
    c.auto_split && ((c.max_file_size_mb matches Some(m) && (bytes as int) > (m as int) * 1_048_576)
        || (c.max_file_duration_sec matches Some(d) && elapsed_sec > d))
}

pub open spec fn row_of(format: TraceFormat, f: crate::message::FrameView) -> Seq<char> {
    match format {
        TraceFormat::Csv => csv_line(f) + seq!['\n'],
        TraceFormat::Trc => trc_row(f),
    }
}

pub fn should_split(c: &TraceLoggerConfig, bytes: u64, elapsed_sec: u64) -> (r: bool)
    ensures
        r == due(*c, bytes, elapsed_sec),
{
    if !c.auto_split {
        return false;
    }
    let by_size = match c.max_file_size_mb {
        Some(m) => (bytes as u128) > (m as u128) * MIB,
        None => false,
    };
    let by_time = match c.max_file_duration_sec {
        Some(d) => elapsed_sec > d,
        None => false,
    };
    by_size || by_time
}

impl TraceLogger {
    /// A logger that has written nothing yet.
    pub fn new(config: TraceLoggerConfig) -> (r: TraceLogger)
        ensures
            r.frames_written == 0,
            r.bytes_in_file == 0,
            !r.started,
            r.config.format == config.format,
            r.config.file_path@ == config.file_path@,
    {
        TraceLogger { config, frames_written: 0, bytes_in_file: 0, started: false }
    }

    /// Starts a file at `now`: returns its header. Refused when already started.
    pub fn start(&mut self, now: WallClock) -> (r: Result<String, String>)
        ensures
            r is Err <==> old(self).started,
            r matches Ok(h) ==> h@ == header_text(old(self).config.format, now) && final(self).started
                && final(self).bytes_in_file == h@.len() && final(self).frames_written == 0,
            r is Err ==> final(self).started == old(self).started,
            final(self).config.format == old(self).config.format,
    {
        if self.started {
            return Err(String::from_str("Logger already started"));
        }
        let h = header(self.config.format, now);
        let hc = chars_of(h.as_str());
        self.started = true;
        self.frames_written = 0;
        self.bytes_in_file = hc.len() as u64;
        Ok(h)
    }

    /// Stops: the writer flushes and closes the file.
    pub fn stop(&mut self)
        ensures
            !final(self).started,
            final(self).frames_written == old(self).frames_written,
    {
        self.started = false;
    }

    /// Replaces the configuration.
    pub fn update_config(&mut self, config: TraceLoggerConfig)
        ensures
            final(self).config.format == config.format,
            final(self).config.file_path@ == config.file_path@,
            final(self).frames_written == old(self).frames_written,
    {
        self.config = config;
    }

    /// The number of frames written.
    pub fn frame_count(&self) -> (r: u64)
        ensures
            r == self.frames_written,
    {
        self.frames_written
    }

    /// What to do for the next frame, `elapsed_sec` seconds after the logger started, at
    /// wall-clock `now`: its row; a rotation to the next split file with its header when the
    /// file is due; a flush every hundred frames.
    pub fn write_step(&mut self, frame: &CanFrame, elapsed_sec: u64, now: WallClock) -> (r: WriteStep)
        requires
            old(self).frames_written < u64::MAX,
        ensures
            r.line@ == row_of(old(self).config.format, frame@),
            final(self).frames_written == old(self).frames_written + 1,
            final(self).config.format == old(self).config.format,
            final(self).config.file_path@ == old(self).config.file_path@,
            ({
                let grown = if old(self).bytes_in_file as int + r.line@.len() > u64::MAX as int {
                    u64::MAX as int
                } else {
                    old(self).bytes_in_file as int + r.line@.len()
                };
                if due(old(self).config, grown as u64, elapsed_sec) {
                    &&& (r.rotate_to matches Some(p) && p@ == split_path(old(self).config.file_path@, final(self).frames_written))
                    &&& (r.header matches Some(h) && h@ == header_text(old(self).config.format, now))
                    &&& (r.header matches Some(h) && final(self).bytes_in_file == h@.len())
                } else {
                    r.rotate_to is None && r.header is None && final(self).bytes_in_file == grown
                }
            }),
            r.flush == (final(self).frames_written % FLUSH_EVERY == 0),
    {
        self.frames_written = self.frames_written + 1;
        let line = match self.config.format {
            TraceFormat::Csv => format_csv_row(frame),
            TraceFormat::Trc => format_trc_row(frame),
        };
        let lc = chars_of(line.as_str());
        let len = lc.len() as u64;
        let grown: u64 = if self.bytes_in_file > u64::MAX - len { u64::MAX } else { self.bytes_in_file + len };
        let (rotate_to, hdr) = if should_split(&self.config, grown, elapsed_sec) {
            let h = header(self.config.format, now);
            let hc = chars_of(h.as_str());
            self.bytes_in_file = hc.len() as u64;
            (Some(generate_split_path(self.config.file_path.as_str(), self.frames_written)), Some(h))
        } else {
            self.bytes_in_file = grown;
            (None, None)
        };
        WriteStep { line, rotate_to, header: hdr, flush: self.frames_written % FLUSH_EVERY == 0 }
    }
}

} // verus!

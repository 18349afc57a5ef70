//! Capture output: one pcapng file, or a rotation of numbered files.
//!
//! The caller owns the files. After each call it takes the produced bytes with
//! [`CaptureOutput::flush`] and writes them to the file named by
//! [`CaptureOutput::path`], opening a new file whenever the file index changes.
use crate::archive::Event;
use crate::parser::digits_value;
use crate::pcapng::{WriteError, Writer, file_header, packet_block, packet_prefix, size_fault, total_len};
use vstd::prelude::*;
use vstd::string::*;

verus! {

/// The decimal digits of `n`, most significant first.
pub open spec fn decimal(n: nat) -> Seq<char>
    decreases n,
{
    if n < 10 {
        seq![digit_char(n)]
    } else {
        decimal(n / 10).push(digit_char(n % 10))
    }
}

pub open spec fn digit_char(d: nat) -> char {
    if d == 0 {
        '0'
    } else if d == 1 {
        '1'
    } else if d == 2 {
        '2'
    } else if d == 3 {
        '3'
    } else if d == 4 {
        '4'
    } else if d == 5 {
        '5'
    } else if d == 6 {
        '6'
    } else if d == 7 {
        '7'
    } else if d == 8 {
        '8'
    } else {
        '9'
    }
}

/// `n` in decimal, padded with zeros to at least `width` digits.
pub open spec fn padded(n: nat, width: nat) -> Seq<char> {
    let d = decimal(n);
    if d.len() < width {
        Seq::new((width - d.len()) as nat, |i: int| '0') + d
    } else {
        d
    }
}

/// The name of rotated file `index`: the base name, a dot and six or more digits.
pub open spec fn rotated_name(base: Seq<char>, index: u32) -> Seq<char> {
    base + seq!['.'] + padded(index as nat, 6)
}

fn digit_str(d: u32) -> (r: &'static str)
    requires
        d < 10,
    ensures
        r@ == seq![digit_char(d as nat)],
{
    proof {
        reveal_strlit("0");
        reveal_strlit("1");
        reveal_strlit("2");
        reveal_strlit("3");
        reveal_strlit("4");
        reveal_strlit("5");
        reveal_strlit("6");
        reveal_strlit("7");
        reveal_strlit("8");
        reveal_strlit("9");
    }
    if d == 0 {
        "0"
    } else if d == 1 {
        "1"
    } else if d == 2 {
        "2"
    } else if d == 3 {
        "3"
    } else if d == 4 {
        "4"
    } else if d == 5 {
        "5"
    } else if d == 6 {
        "6"
    } else if d == 7 {
        "7"
    } else if d == 8 {
        "8"
    } else {
        "9"
    }
}

fn append_decimal(s: &mut String, n: u32)
    ensures
        final(s)@ == old(s)@ + decimal(n as nat),
    decreases n,
{
    if n >= 10 {
        append_decimal(s, n / 10);
    }
    let ghost before = s@;
    s.append(digit_str(n % 10));
    proof {
        if n >= 10 {
            assert(s@ =~= old(s)@ + decimal(n as nat));
        } else {
            assert(s@ =~= old(s)@ + decimal(n as nat));
        }
    }
}

/// The name of rotated file `index` (see [`rotated_name`]).
pub fn rotated_path(base: &str, index: u32) -> (r: String)
    ensures
        r@ == rotated_name(base@, index),
{
    let mut digits = String::new();
    append_decimal(&mut digits, index);
    assert(digits@ =~= decimal(index as nat));
    let len = digits.as_str().unicode_len();
    let mut name = String::from_str(base);
    proof {
        reveal_strlit(".");
    }
    name.append(".");
    let ghost start = name@;
    if len < 6 {
        let mut k = len;
        while k < 6
            invariant
                len <= k <= 6,
                name@ == start + Seq::new((k - len) as nat, |i: int| '0'),
            decreases 6 - k,
        {
            proof {
                reveal_strlit("0");
            }
            name.append("0");
            k = k + 1;
            assert(name@ =~= start + Seq::new((k - len) as nat, |i: int| '0'));
        }
    }
    name.append(digits.as_str());
    assert(name@ =~= rotated_name(base@, index));
    name
}

proof fn lemma_digit_char(d: nat)
    requires
        d < 10,
    ensures
        crate::parser::dec_digit(digit_char(d)) == Some(d),
{
    if d == 0 {
    } else if d == 1 {
    } else if d == 2 {
    } else if d == 3 {
    } else if d == 4 {
    } else if d == 5 {
    } else if d == 6 {
    } else if d == 7 {
    } else if d == 8 {
    } else {
    }
}

proof fn lemma_decimal_value(n: nat)
    ensures
        digits_value(decimal(n), false) == n,
    decreases n,
{
    let d = decimal(n);
    if n >= 10 {
        lemma_decimal_value(n / 10);
        assert(d.drop_last() =~= decimal(n / 10));
        lemma_digit_char(n % 10);
        assert(d.last() == digit_char(n % 10));
        assert(crate::parser::digit(d.last(), false) == Some(n % 10));
        assert(crate::parser::radix(false) == 10);
        assert(digits_value(d, false) == digits_value(decimal(n / 10), false) * 10 + n % 10);
        assert(n == (n / 10) * 10 + n % 10) by (nonlinear_arith);
    } else {
        assert(d.drop_last() =~= Seq::<char>::empty());
        lemma_digit_char(n);
        assert(d.last() == digit_char(n));
        assert(crate::parser::digit(d.last(), false) == Some(n));
        assert(digits_value(Seq::<char>::empty(), false) == 0);
    }
}

proof fn lemma_zeros_value(z: nat)
    ensures
        digits_value(Seq::new(z, |i: int| '0'), false) == 0,
    decreases z,
{
    if z > 0 {
        lemma_zeros_value((z - 1) as nat);
        assert(Seq::new(z, |i: int| '0').drop_last() =~= Seq::new((z - 1) as nat, |i: int| '0'));
    }
}

proof fn lemma_leading_zeros(z: nat, s: Seq<char>)
    ensures
        digits_value(Seq::new(z, |i: int| '0') + s, false) == digits_value(s, false),
    decreases s.len(),
{
    let zs = Seq::new(z, |i: int| '0');
    if s.len() == 0 {
        assert(zs + s =~= zs);
        lemma_zeros_value(z);
    } else {
        lemma_leading_zeros(z, s.drop_last());
        assert((zs + s).drop_last() =~= zs + s.drop_last());
        assert((zs + s).last() == s.last());
    }
}

/// Rotated files never share a name: distinct indices give distinct names, so a
/// rotation never reuses the name of an earlier file.
pub proof fn law_rotated_names_distinct(base: Seq<char>, i: u32, j: u32)
    requires
        i != j,
    ensures
        rotated_name(base, i) != rotated_name(base, j),
{
    lemma_decimal_value(i as nat);
    lemma_decimal_value(j as nat);
    let di = decimal(i as nat);
    let dj = decimal(j as nat);
    let pi = padded(i as nat, 6);
    let pj = padded(j as nat, 6);
    if di.len() < 6 {
        lemma_leading_zeros((6 - di.len()) as nat, di);
    }
    if dj.len() < 6 {
        lemma_leading_zeros((6 - dj.len()) as nat, dj);
    }
    assert(digits_value(pi, false) == i);
    assert(digits_value(pj, false) == j);
    if rotated_name(base, i) == rotated_name(base, j) {
        let k = base.len() + 1int;
        assert(pi =~= rotated_name(base, i).skip(k));
        assert(pj =~= rotated_name(base, j).skip(k));
    }
}

/// Why an output could not be set up, or an event not written.
#[derive(Clone, Copy, Debug, PartialEq, Eq, Structural)]
pub enum OutputError {
    /// Rotation writes numbered files next to a path; `-` is standard output.
    RotationNeedsPath,
    /// A file count limit only makes sense with rotation.
    FileCountNeedsRotation,
    /// Size, age and file count limits must be positive.
    ZeroLimit,
    /// The file index cannot grow any further.
    RotationExhausted,
    Write(WriteError),
}

/// The state of a capture output.
pub struct OutputView {
    pub base: Seq<char>,
    pub rotating: bool,
    /// Bytes of the current file not yet taken.
    pub buffered: Seq<u8>,
    /// Bytes of the previous file not yet taken.
    pub retired: Seq<u8>,
    /// Bytes produced for the current file.
    pub written: nat,
    pub size: Option<u64>,
    pub seconds: Option<u64>,
    pub max_files: Option<u32>,
    pub file_index: u32,
    /// Events in the current file.
    pub events: u64,
    /// Timestamp of the current file's first event.
    pub started: Option<u64>,
}

/// Whether the next event, observed at `now`, starts a new file: the current one
/// has events and has reached its size or its age limit.
pub open spec fn rotation_due(v: OutputView, now: u64) -> bool {
    let by_size = v.size matches Some(s) && v.written >= s;
    let age = match v.started {
        Some(st) => if now >= st {
            now - st
        } else {
            0
        },
        None => 0,
    };
    let by_age = v.seconds is Some && v.started is Some && age / 1_000_000_000 >= v.seconds->0;
    v.events != 0 && (by_size || by_age)
}

/// The state once a new file has been started.
pub open spec fn rotated(v: OutputView) -> OutputView {
    OutputView {
        retired: v.retired + v.buffered,
        buffered: file_header(),
        written: 48,
        file_index: (v.file_index + 1) as u32,
        events: 0,
        started: None,
        ..v
    }
}

/// The state and result once `event` has been written to the file of `v`.
pub open spec fn appended(v: OutputView, event: Event) -> (OutputView, Result<bool, OutputError>) {
    let v1 = OutputView {
        started: if v.started is None {
            Some(event.meta.timestamp_ns)
        } else {
            v.started
        },
        ..v
    };
    match size_fault(event) {
        Some(e) => (v1, Err(OutputError::Write(e))),
        None => if event.payload@.len() < event.meta.payload_len {
            (
                OutputView { buffered: v.buffered + packet_prefix(event) + event.payload@, ..v1 },
                Err(OutputError::Write(WriteError::PayloadShorterThanSpan)),
            )
        } else {
            (
                OutputView {
                    buffered: v.buffered + packet_block(event),
                    written: (v.written + total_len(event)) as nat,
                    events: (v.events + 1) as u64,
                    ..v1
                },
                Ok(true),
            )
        },
    }
}

/// The effect of writing an event: `Ok(false)` when the file count limit is reached
/// (nothing changes), else the event goes to the current file or, when a rotation is
/// due, to a new one. An event is never split across files.
pub open spec fn output_step(v: OutputView, event: Event) -> (OutputView, Result<bool, OutputError>) {
    let due = rotation_due(v, event.meta.timestamp_ns);
    if due && (v.max_files matches Some(max) && v.file_index + 1 >= max) {
        (v, Ok(false))
    } else if due && v.file_index == u32::MAX {
        (v, Err(OutputError::RotationExhausted))
    } else if due {
        appended(rotated(v), event)
    } else {
        appended(v, event)
    }
}

/// A pcapng output, rotated by size or age when asked.
pub struct CaptureOutput {
    base: String,
    rotating: bool,
    writer: Writer,
    retired: Vec<u8>,
    size: Option<u64>,
    seconds: Option<u64>,
    max_files: Option<u32>,
    file_index: u32,
    events: u64,
    started: Option<u64>,
}

impl CaptureOutput {
    pub closed spec fn view(&self) -> OutputView {
        OutputView {
            base: self.base@,
            rotating: self.rotating,
            buffered: self.writer.buffered(),
            retired: self.retired@,
            written: self.writer.written(),
            size: self.size,
            seconds: self.seconds,
            max_files: self.max_files,
            file_index: self.file_index,
            events: self.events,
            started: self.started,
        }
    }

    /// The file index stays below the file count limit.
    pub closed spec fn wf(&self) -> bool {
        self.max_files matches Some(m) ==> self.file_index < m
    }

    /// An output to `base`, rotated when a size in bytes or an age in seconds is
    /// given; at most `max_files` files are written when that is given too.
    pub fn new(base: &str, size: Option<u64>, seconds: Option<u64>, max_files: Option<u32>) -> (r:
        Result<Self, OutputError>)
        ensures
            ({
                let rotating = size is Some || seconds is Some;
                if rotating && base@ == "-"@ {
                    r == Err::<Self, OutputError>(OutputError::RotationNeedsPath)
                } else if max_files is Some && !rotating {
                    r == Err::<Self, OutputError>(OutputError::FileCountNeedsRotation)
                } else if size == Some(0u64) || seconds == Some(0u64) || max_files == Some(0u32) {
                    r == Err::<Self, OutputError>(OutputError::ZeroLimit)
                } else {
                    r matches Ok(o) && o.wf() && o.view() == (OutputView {
                        base: base@,
                        rotating,
                        buffered: file_header(),
                        retired: Seq::empty(),
                        written: 48,
                        size,
                        seconds,
                        max_files,
                        file_index: 0,
                        events: 0,
                        started: None,
                    })
                }
            }),
    {
        let rotating = size.is_some() || seconds.is_some();
        let stdout = base.unicode_len() == 1 && base.get_char(0) == '-';
        proof {
            reveal_strlit("-");
            if base@.len() == 1 && base@[0] == '-' {
                assert(base@ =~= "-"@);
            }
        }
        if rotating && stdout {
            return Err(OutputError::RotationNeedsPath);
        }
        if max_files.is_some() && !rotating {
            return Err(OutputError::FileCountNeedsRotation);
        }
        if size == Some(0u64) || seconds == Some(0u64) || max_files == Some(0u32) {
            return Err(OutputError::ZeroLimit);
        }
        let out = CaptureOutput {
            base: String::from_str(base),
            rotating,
            writer: Writer::new(),
            retired: Vec::new(),
            size,
            seconds,
            max_files,
            file_index: 0,
            events: 0,
            started: None,
        };
        assert(out.view().retired =~= Seq::<u8>::empty());
        Ok(out)
    }

    /// Name of the current file.
    pub fn path(&self) -> (r: String)
        ensures
            r@ == if self.view().rotating {
                rotated_name(self.view().base, self.view().file_index)
            } else {
                self.view().base
            },
    {
        if self.rotating {
            rotated_path(self.base.as_str(), self.file_index)
        } else {
            self.base.clone()
        }
    }

    /// Bytes produced for the current file.
    pub fn bytes_written(&self) -> (r: u64)
        ensures
            r == self.view().written,
    {
        self.writer.bytes_written()
    }

    /// Events in the current file.
    pub fn events(&self) -> (r: u64)
        ensures
            r == self.view().events,
    {
        self.events
    }

    /// Index of the current file.
    pub fn file_index(&self) -> (r: u32)
        ensures
            r == self.view().file_index,
    {
        self.file_index
    }

    /// Takes the bytes produced for the current file.
    pub fn flush(&mut self) -> (r: Vec<u8>)
        ensures
            r@ == old(self).view().buffered,
            final(self).view() == (OutputView { buffered: Seq::empty(), ..old(self).view() }),
            final(self).wf() == old(self).wf(),
    {
        self.writer.flush()
    }

    /// Takes the bytes produced for the previous file before a rotation.
    pub fn take_retired(&mut self) -> (r: Vec<u8>)
        ensures
            r@ == old(self).view().retired,
            final(self).view() == (OutputView { retired: Seq::empty(), ..old(self).view() }),
            final(self).wf() == old(self).wf(),
    {
        let mut out: Vec<u8> = Vec::new();
        std::mem::swap(&mut out, &mut self.retired);
        assert(self.view().retired =~= Seq::<u8>::empty());
        out
    }

    /// Writes an event (see [`output_step`]). `false` means the requested file count
    /// has been reached.
    pub fn write(&mut self, event: &Event) -> (r: Result<bool, OutputError>)
        requires
            old(self).wf(),
            old(self).view().written + u32::MAX <= u64::MAX,
            old(self).view().events < u64::MAX,
        ensures
            final(self).wf(),
            final(self).view() == output_step(old(self).view(), *event).0,
            r == output_step(old(self).view(), *event).1,
    {
        let now = event.meta.timestamp_ns;
        let by_size = match self.size {
            Some(s) => self.writer.bytes_written() >= s,
            None => false,
        };
        let by_age = match (self.seconds, self.started) {
            (Some(sec), Some(st)) => now.saturating_sub(st) / 1_000_000_000 >= sec,
            _ => false,
        };
        let rotate = self.events != 0 && (by_size || by_age);
        if rotate {
            if let Some(max) = self.max_files {
                if self.file_index + 1 >= max {
                    return Ok(false);
                }
            }
            let next = match self.file_index.checked_add(1) {
                None => {
                    return Err(OutputError::RotationExhausted);
                },
                Some(i) => i,
            };
            let mut old_bytes = self.writer.flush();
            self.retired.append(&mut old_bytes);
            self.writer = Writer::new();
            self.file_index = next;
            self.events = 0;
            self.started = None;
        }
        if self.started.is_none() {
            self.started = Some(now);
        }
        match self.writer.write_event(event) {
            Err(e) => {
                return Err(OutputError::Write(e));
            },
            Ok(()) => {},
        }
        self.events = self.events + 1;
        Ok(true)
    }
}

} // verus!

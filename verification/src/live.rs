//! The decisions of live capture: ring size, the completion call site, clock
//! offset, kernel record framing, when to stop, and the final counters. The caller
//! loads the BPF programs, reads the clocks and the ring, and acts on these.
use crate::bytes::{le_value, u32_at};
use crate::kernel_config::{after_line, find_from, first_line, lead_ws, lemma_first_index_bound, lemma_lead_is};
use crate::lexer::{is_space, is_whitespace, slice_chars};
use crate::parser::{read_digits, text_eq, unsigned_value};
use crate::wire::{CaptureConfig, CaptureStats, SgMemory};
use vstd::prelude::*;

verus! {

/// Why live capture cannot proceed.
#[derive(Clone, Copy, Debug, PartialEq, Eq, Structural)]
pub enum LiveError {
    RingSizeOverflow,
    InvalidRingSize,
    GivebackUnavailable,
    NoCompletionBoundary,
    ShortKernelRecord,
    InvalidKernelRecordLength,
}

/// Whether `v` is a power of two.
pub open spec fn is_pow2(v: nat) -> bool
    decreases v,
{
    if v == 1 {
        true
    } else if v == 0 || v % 2 != 0 {
        false
    } else {
        is_pow2(v / 2)
    }
}

/// The ring buffer size for `ring_kib` KiB: a power of two of at least one page.
pub open spec fn ring_size(ring_kib: u32, page: u32) -> Result<u32, LiveError> {
    let bytes = ring_kib * 1024;
    if bytes > u32::MAX {
        Err(LiveError::RingSizeOverflow)
    } else if !(is_pow2(bytes as nat) && bytes >= page) {
        Err(LiveError::InvalidRingSize)
    } else {
        Ok(bytes as u32)
    }
}

/// The ring buffer size in bytes (see [`ring_size`]).
pub fn ring_bytes(ring_kib: u32, page: u32) -> (r: Result<u32, LiveError>)
    ensures
        r == ring_size(ring_kib, page),
{
    let bytes = match ring_kib.checked_mul(1024) {
        None => {
            return Err(LiveError::RingSizeOverflow);
        },
        Some(b) => b,
    };
    let mut v = bytes;
    while v > 1 && v % 2 == 0
        invariant
            v <= bytes,
            is_pow2(bytes as nat) == is_pow2(v as nat),
        decreases v,
    {
        v = v / 2;
    }
    if !(v == 1 && bytes >= page) {
        return Err(LiveError::InvalidRingSize);
    }
    Ok(bytes)
}

// ---------------------------------------------------------------------------
// Kernel symbols

/// Number of leading characters that are not whitespace.
pub open spec fn word_end(s: Seq<char>) -> nat
    decreases s.len(),
{
    if s.len() > 0 && !is_space(s[0]) {
        1 + word_end(s.drop_first())
    } else {
        0
    }
}

pub proof fn lemma_word_end(s: Seq<char>)
    ensures
        word_end(s) <= s.len(),
        s.len() > 0 && !is_space(s[0]) ==> word_end(s) >= 1,
        forall|j: int| 0 <= j < word_end(s) ==> !is_space(s[j]),
        word_end(s) < s.len() ==> is_space(s[word_end(s) as int]),
    decreases s.len(),
{
    if s.len() > 0 && !is_space(s[0]) {
        lemma_word_end(s.drop_first());
        assert forall|j: int| 0 <= j < word_end(s) implies !is_space(s[j]) by {
            if j > 0 {
                assert(s[j] == s.drop_first()[j - 1]);
            }
        }
    }
}

pub proof fn lemma_lead_ws_bound(s: Seq<char>)
    ensures
        lead_ws(s) <= s.len(),
        lead_ws(s) < s.len() ==> !is_space(s[lead_ws(s) as int]),
        forall|j: int| 0 <= j < lead_ws(s) ==> is_space(s[j]),
    decreases s.len(),
{
    if s.len() > 0 && is_space(s[0]) {
        lemma_lead_ws_bound(s.drop_first());
        assert forall|j: int| 0 <= j < lead_ws(s) implies is_space(s[j]) by {
            if j > 0 {
                assert(s[j] == s.drop_first()[j - 1]);
            }
        }
    }
}

/// The words of `s`, separated by whitespace, as `str::split_whitespace` gives them.
pub open spec fn split_words(s: Seq<char>) -> Seq<Seq<char>>
    decreases s.len(),
{
    let t = s.skip(lead_ws(s) as int);
    if lead_ws(s) >= s.len() {
        Seq::empty()
    } else {
        proof {
            lemma_lead_ws_bound(s);
            lemma_word_end(t);
        }
        seq![t.take(word_end(t) as int)] + split_words(t.skip(word_end(t) as int))
    }
}

/// A line of the kernel symbol table naming a text symbol: its address and name.
pub open spec fn text_symbol(line: Seq<char>) -> Option<(u64, Seq<char>)> {
    let w = split_words(line);
    if w.len() < 3 {
        None
    } else {
        match unsigned_value(w[0], true) {
            None => None,
            Some(a) => if a > u64::MAX || !(w[1] == "t"@ || w[1] == "T"@) {
                None
            } else {
                Some((a as u64, w[2]))
            },
        }
    }
}

/// The text symbols of a symbol table, in order.
pub open spec fn text_symbols(s: Seq<char>) -> Seq<(u64, Seq<char>)>
    decreases s.len(),
{
    if s.len() == 0 {
        Seq::empty()
    } else {
        proof {
            lemma_first_index_bound(s, '\n');
        }
        let rest = text_symbols(after_line(s));
        match text_symbol(first_line(s)) {
            Some(e) => seq![e] + rest,
            None => rest,
        }
    }
}

/// The address of the first symbol with the given name.
pub open spec fn first_named(fs: Seq<(u64, Seq<char>)>, name: Seq<char>) -> Option<u64>
    decreases fs.len(),
{
    if fs.len() == 0 {
        None
    } else if fs[0].1 == name {
        Some(fs[0].0)
    } else {
        first_named(fs.drop_first(), name)
    }
}

/// The lowest address above `a`.
pub open spec fn next_above(fs: Seq<(u64, Seq<char>)>, a: u64) -> Option<u64>
    decreases fs.len(),
{
    if fs.len() == 0 {
        None
    } else {
        let rest = next_above(fs.drop_last(), a);
        let b = fs.last().0;
        if b <= a {
            rest
        } else {
            match rest {
                None => Some(b),
                Some(c) => if b < c {
                    Some(b)
                } else {
                    Some(c)
                },
            }
        }
    }
}

/// The address range of `__usb_hcd_giveback_urb`: from its address to the next
/// text symbol's. A missing or redacted (zero) address is refused.
pub open spec fn giveback_span(symbols: Seq<char>) -> Result<(u64, u64), LiveError> {
    let fs = text_symbols(symbols);
    match first_named(fs, "__usb_hcd_giveback_urb"@) {
        None => Err(LiveError::GivebackUnavailable),
        Some(start) => if start == 0 {
            Err(LiveError::GivebackUnavailable)
        } else {
            match next_above(fs, start) {
                None => Err(LiveError::NoCompletionBoundary),
                Some(end) => Ok((start, end)),
            }
        },
    }
}

/// The words of a line (see [`split_words`]).
fn words_of(line: &Vec<char>) -> (r: Vec<Vec<char>>)
    ensures
        r@.map_values(|w: Vec<char>| w@) == split_words(line@),
{
    let n = line.len();
    let mut out: Vec<Vec<char>> = Vec::new();
    let mut pos: usize = 0;
    assert(line@.skip(0) =~= line@);
    while pos < n
        invariant
            pos <= n == line@.len(),
            split_words(line@) == out@.map_values(|w: Vec<char>| w@) + split_words(
                line@.skip(pos as int),
            ),
        decreases n - pos,
    {
        let ghost s = line@.skip(pos as int);
        let mut start = pos;
        while start < n && is_whitespace(line[start])
            invariant
                pos <= start <= n == line@.len(),
                forall|j: int| pos <= j < start ==> is_space(line@[j]),
            decreases n - start,
        {
            start = start + 1;
        }
        proof {
            assert forall|j: int| 0 <= j < start - pos implies is_space(s[j]) by {
                assert(s[j] == line@[pos + j]);
            }
            if start < n {
                assert(s[start - pos] == line@[start as int]);
            }
            lemma_lead_is(s, start - pos);
        }
        if start == n {
            proof {
                assert(split_words(s) =~= Seq::<Seq<char>>::empty());
                assert(out@.map_values(|w: Vec<char>| w@) + Seq::<Seq<char>>::empty() =~= out@.map_values(
                    |w: Vec<char>| w@,
                ));
                assert(line@.skip(n as int) =~= Seq::<char>::empty());
            }
            pos = n;
        } else {
            let mut end = start;
            while end < n && !is_whitespace(line[end])
                invariant
                    start <= end <= n == line@.len(),
                    forall|j: int| start <= j < end ==> !is_space(line@[j]),
                decreases n - end,
            {
                end = end + 1;
            }
            let ghost t = s.skip(start - pos);
            proof {
                assert(t =~= line@.skip(start as int));
                assert forall|j: int| 0 <= j < end - start implies !is_space(t[j]) by {
                    assert(t[j] == line@[start + j]);
                }
                if end < n {
                    assert(t[end - start] == line@[end as int]);
                }
                lemma_word_end(t);
                lemma_word_end_is(t, end - start);
            }
            let word = slice_chars(line, start, end);
            let ghost before = out@.map_values(|w: Vec<char>| w@);
            out.push(word);
            proof {
                assert(word@ =~= t.take((end - start) as int));
                assert(t.skip((end - start) as int) =~= line@.skip(end as int));
                assert(out@.map_values(|w: Vec<char>| w@) =~= before.push(word@));
                assert(before.push(word@) + split_words(line@.skip(end as int)) =~= before + (seq![
                    word@,
                ] + split_words(line@.skip(end as int))));
            }
            pos = end;
        }
    }
    proof {
        assert(line@.skip(pos as int) =~= Seq::<char>::empty());
        assert(split_words(Seq::<char>::empty()) =~= Seq::<Seq<char>>::empty());
        assert(out@.map_values(|w: Vec<char>| w@) + Seq::<Seq<char>>::empty() =~= out@.map_values(
            |w: Vec<char>| w@,
        ));
    }
    out
}

proof fn lemma_word_end_is(s: Seq<char>, k: int)
    requires
        0 <= k <= s.len(),
        forall|j: int| 0 <= j < k ==> !is_space(s[j]),
        k < s.len() ==> is_space(s[k]),
    ensures
        word_end(s) == k,
    decreases k,
{
    if k > 0 {
        assert forall|j: int| 0 <= j < k - 1 implies !is_space(s.drop_first()[j]) by {
            assert(s.drop_first()[j] == s[j + 1]);
        }
        lemma_word_end_is(s.drop_first(), k - 1);
    }
}

/// The text symbol a line names, if it names one (see [`text_symbol`]).
fn symbol_of(line: &Vec<char>) -> (r: Option<(u64, Vec<char>)>)
    ensures
        match r {
            None => text_symbol(line@) is None,
            Some((a, name)) => text_symbol(line@) == Some((a, name@)),
        },
{
    let words = words_of(line);
    let ghost w = split_words(line@);
    if words.len() < 3 {
        return None;
    }
    assert(words@[0]@ == w[0] && words@[1]@ == w[1] && words@[2]@ == w[2]);
    let first = &words[0];
    let from: usize = if first.len() > 0 && first[0] == '+' {
        1
    } else {
        0
    };
    proof {
        assert(first@.skip(0) =~= first@);
        if first@.len() > 0 {
            assert(first@.drop_first() =~= first@.skip(1));
        }
    }
    let address = match read_digits(first, from, true, 0xffff_ffff_ffff_ffff) {
        None => {
            return None;
        },
        Some(a) => a as u64,
    };
    if !(text_eq(&words[1], "t") || text_eq(&words[1], "T")) {
        return None;
    }
    let name = slice_chars(&words[2], 0, words[2].len());
    assert(name@ =~= w[2]);
    Some((address, name))
}

/// The address range of `__usb_hcd_giveback_urb` (see [`giveback_span`]).
pub fn giveback_range(symbols: &str) -> (r: Result<(u64, u64), LiveError>)
    ensures
        r == giveback_span(symbols@),
{
    let s = crate::lexer::chars_of(symbols);
    let n = s.len();
    let mut functions: Vec<(u64, Vec<char>)> = Vec::new();
    let mut pos: usize = 0;
    assert(s@.skip(0) =~= s@);
    assert(functions@.map_values(|e: (u64, Vec<char>)| (e.0, e.1@)) + text_symbols(s@) =~= text_symbols(
        s@,
    ));
    while pos < n
        invariant
            pos <= n == s@.len(),
            text_symbols(s@) == functions@.map_values(|e: (u64, Vec<char>)| (e.0, e.1@))
                + text_symbols(s@.skip(pos as int)),
        decreases n - pos,
    {
        let ghost t = s@.skip(pos as int);
        let e = find_from(&s, pos, n, '\n');
        assert(s@.subrange(pos as int, n as int) =~= t);
        let stop = if e < n && e > pos && s[e - 1] == '\r' {
            e - 1
        } else {
            e
        };
        let line = slice_chars(&s, pos, stop);
        proof {
            if e < n && e > pos {
                assert(t[e - pos - 1] == s@[e - 1]);
            }
            assert(line@ =~= first_line(t));
        }
        let ghost before = functions@.map_values(|e: (u64, Vec<char>)| (e.0, e.1@));
        let ghost rest = text_symbols(after_line(t));
        match symbol_of(&line) {
            Some(entry) => {
                functions.push(entry);
                proof {
                    assert(functions@.map_values(|e: (u64, Vec<char>)| (e.0, e.1@)) =~= before.push(
                        (entry.0, entry.1@),
                    ));
                    assert(before.push((entry.0, entry.1@)) + rest =~= before + (seq![
                        (entry.0, entry.1@),
                    ] + rest));
                }
            },
            None => {},
        }
        if e < n {
            assert(after_line(t) =~= s@.skip(e + 1));
            pos = e + 1;
        } else {
            assert(after_line(t) =~= Seq::<char>::empty());
            assert(text_symbols(Seq::<char>::empty()) =~= Seq::<(u64, Seq<char>)>::empty());
            assert(s@.skip(n as int) =~= Seq::<char>::empty());
            pos = n;
        }
    }
    let ghost fs = functions@.map_values(|e: (u64, Vec<char>)| (e.0, e.1@));
    proof {
        assert(s@.skip(n as int) =~= Seq::<char>::empty());
        assert(fs + Seq::<(u64, Seq<char>)>::empty() =~= fs);
    }
    // The first entry with the giveback name.
    let mut k: usize = 0;
    let mut start: Option<u64> = None;
    assert(fs.skip(0) =~= fs);
    while k < functions.len()
        invariant
            k <= functions@.len(),
            fs == functions@.map_values(|e: (u64, Vec<char>)| (e.0, e.1@)),
            first_named(fs, "__usb_hcd_giveback_urb"@) == match start {
                Some(a) => Some(a),
                None => first_named(fs.skip(k as int), "__usb_hcd_giveback_urb"@),
            },
        decreases functions@.len() - k,
    {
        if start.is_none() {
            assert(fs.skip(k as int)[0] == fs[k as int]);
            assert(fs.skip(k as int).drop_first() =~= fs.skip(k + 1));
            if text_eq(&functions[k].1, "__usb_hcd_giveback_urb") {
                start = Some(functions[k].0);
            }
        }
        k = k + 1;
    }
    let start = match start {
        None => {
            assert(fs.skip(k as int).len() == 0);
            return Err(LiveError::GivebackUnavailable);
        },
        Some(a) => a,
    };
    if start == 0 {
        return Err(LiveError::GivebackUnavailable);
    }
    // The lowest address above it.
    let mut k: usize = 0;
    let mut end: Option<u64> = None;
    assert(fs.take(0) =~= Seq::<(u64, Seq<char>)>::empty());
    while k < functions.len()
        invariant
            k <= functions@.len(),
            fs == functions@.map_values(|e: (u64, Vec<char>)| (e.0, e.1@)),
            end == next_above(fs.take(k as int), start),
        decreases functions@.len() - k,
    {
        let b = functions[k].0;
        assert(fs.take(k + 1).drop_last() =~= fs.take(k as int));
        assert(fs.take(k + 1).last().0 == b);
        if b > start {
            end = match end {
                None => Some(b),
                Some(c) => if b < c {
                    Some(b)
                } else {
                    Some(c)
                },
            };
        }
        k = k + 1;
    }
    assert(fs.take(functions@.len() as int) =~= fs);
    match end {
        None => Err(LiveError::NoCompletionBoundary),
        Some(e) => Ok((start, e)),
    }
}

// ---------------------------------------------------------------------------
// Clocks, records, stopping and counters

/// Nanoseconds of a clock reading.
pub open spec fn nanos(sec: u64, nsec: u64) -> int {
    sec * 1_000_000_000 + nsec
}

/// The offset from the monotonic clock (which BPF timestamps use) to wall time,
/// modulo 2^64.
pub fn epoch_offset(real_sec: u64, real_nsec: u64, mono_sec: u64, mono_nsec: u64) -> (r: u64)
    requires
        nanos(real_sec, real_nsec) <= u64::MAX,
        nanos(mono_sec, mono_nsec) <= u64::MAX,
    ensures
        r == (nanos(real_sec, real_nsec) - nanos(mono_sec, mono_nsec)) % 0x1_0000_0000_0000_0000,
{
    let wall = real_sec * 1_000_000_000 + real_nsec;
    let mono = mono_sec * 1_000_000_000 + mono_nsec;
    wall.wrapping_sub(mono)
}

/// The length of the record at the start of a ring item.
pub open spec fn record_length(item: Seq<u8>) -> Result<nat, LiveError> {
    if item.len() < 24 {
        Err(LiveError::ShortKernelRecord)
    } else if !(24 <= le_value(item, 4, 4) <= item.len()) {
        Err(LiveError::InvalidKernelRecordLength)
    } else {
        Ok(le_value(item, 4, 4))
    }
}

/// The length of the record at the start of a ring item (see [`record_length`]).
pub fn kernel_record_size(item: &[u8]) -> (r: Result<usize, LiveError>)
    ensures
        match record_length(item@) {
            Ok(n) => r == Ok::<usize, LiveError>(n as usize),
            Err(e) => r == Err::<usize, LiveError>(e),
        },
{
    if item.len() < 24 {
        return Err(LiveError::ShortKernelRecord);
    }
    let size = u32_at(item, 4) as usize;
    if !(24 <= size && size <= item.len()) {
        return Err(LiveError::InvalidKernelRecordLength);
    }
    Ok(size)
}

/// Most ring records handed out between two checks of the stop conditions, so a
/// busy ring cannot starve signal and deadline checks.
pub const DRAIN_BATCH: u32 = 1024;

/// How long already submitted URBs get to complete once capture stops, in
/// nanoseconds.
pub const STOP_GRACE_NS: u64 = 200_000_000;

/// Stop state of the capture loop: new submissions stop first, then already
/// submitted URBs get a grace period to complete.
#[derive(Clone, Copy, Debug, PartialEq, Eq, Structural)]
pub struct StopState {
    /// The requested event count has been reached.
    pub count_reached: bool,
    /// Capture has been disabled and the grace period runs.
    pub stopping: bool,
    /// When capture was disabled, in nanoseconds since capture started.
    pub stopped_at_ns: u64,
}

impl StopState {
    pub fn new() -> (r: Self)
        ensures
            r == (StopState { count_reached: false, stopping: false, stopped_at_ns: 0 }),
    {
        StopState { count_reached: false, stopping: false, stopped_at_ns: 0 }
    }

    /// Notes whether a delivered record reached the event count.
    pub fn record(&mut self, reached: bool)
        ensures
            *final(self) == (StopState {
                count_reached: old(self).count_reached || reached,
                ..*old(self)
            }),
    {
        self.count_reached = self.count_reached || reached;
    }

    /// After a drain batch, at `now_ns` since capture started: whether to disable
    /// capture now and start the grace period, because the count is reached, an
    /// interrupt arrived, or the duration has elapsed. It happens once.
    pub fn check(&mut self, interrupted: bool, timed_out: bool, now_ns: u64) -> (r: bool)
        ensures
            r == (!old(self).stopping && (old(self).count_reached || interrupted || timed_out)),
            *final(self) == (StopState {
                stopping: old(self).stopping || r,
                stopped_at_ns: if r {
                    now_ns
                } else {
                    old(self).stopped_at_ns
                },
                ..*old(self)
            }),
    {
        let stop = !self.stopping && (self.count_reached || interrupted || timed_out);
        if stop {
            self.stopping = true;
            self.stopped_at_ns = now_ns;
        }
        stop
    }

    /// Whether the loop ends at `now_ns`: capture is stopping and the grace period
    /// since it stopped has passed.
    pub fn finished(&self, now_ns: u64) -> (r: bool)
        ensures
            r == (self.stopping && now_ns >= self.stopped_at_ns + STOP_GRACE_NS),
    {
        self.stopping && now_ns >= self.stopped_at_ns && now_ns - self.stopped_at_ns >= STOP_GRACE_NS
    }
}

/// What a live capture was asked for: the BPF object file, the ring size in KiB,
/// the bus (0 for all) and device to observe, how long to capture, and a file to
/// create once capture runs.
pub struct Options {
    pub object: String,
    pub ring_kib: u32,
    pub bus: u32,
    pub device: Option<u8>,
    pub duration_ns: Option<u64>,
    pub ready_file: Option<String>,
}

impl Options {
    /// Whether a capture that has run for `elapsed_ns` has reached its duration.
    pub fn timed_out(&self, elapsed_ns: u64) -> (r: bool)
        ensures
            r == (self.duration_ns matches Some(d) && elapsed_ns >= d),
    {
        match self.duration_ns {
            Some(d) => elapsed_ns >= d,
            None => false,
        }
    }
}

/// The capture settings the BPF programs read: the bus and device of `options`,
/// all devices when none is given.
pub fn capture_settings(
    epoch_offset_ns: u64,
    giveback: (u64, u64),
    memory: SgMemory,
    options: &Options,
    enabled: bool,
) -> (r: CaptureConfig)
    ensures
        r.epoch_offset_ns == epoch_offset_ns,
        r.giveback_start == giveback.0,
        r.giveback_end == giveback.1,
        r.memory == memory,
        r.bus == options.bus,
        r.device == match options.device {
            Some(d) => d as u32,
            None => u32::MAX,
        },
        r.enabled == (if enabled {
            1u32
        } else {
            0u32
        }),
        r.filter_count == 0,
{
    CaptureConfig {
        epoch_offset_ns,
        giveback_start: giveback.0,
        giveback_end: giveback.1,
        memory,
        bus: options.bus,
        device: match options.device {
            Some(d) => d as u32,
            None => u32::MAX,
        },
        enabled: if enabled {
            1
        } else {
            0
        },
        filter_count: 0,
    }
}

/// The sum of one counter over all CPUs.
pub open spec fn field_sum(s: Seq<CaptureStats>, f: spec_fn(CaptureStats) -> u64) -> nat
    decreases s.len(),
{
    if s.len() == 0 {
        0
    } else {
        field_sum(s.drop_last(), f) + f(s.last()) as nat
    }
}

pub open spec fn submitted_of(c: CaptureStats) -> u64 {
    c.submitted
}

pub open spec fn completed_of(c: CaptureStats) -> u64 {
    c.completed
}

pub open spec fn submit_errors_of(c: CaptureStats) -> u64 {
    c.submit_errors
}

pub open spec fn ring_losses_of(c: CaptureStats) -> u64 {
    c.ring_losses
}

pub open spec fn read_errors_of(c: CaptureStats) -> u64 {
    c.read_errors
}

pub open spec fn unsupported_of(c: CaptureStats) -> u64 {
    c.unsupported_buffers
}

pub open spec fn state_errors_of(c: CaptureStats) -> u64 {
    c.state_errors
}

pub open spec fn sg_events_of(c: CaptureStats) -> u64 {
    c.sg_events
}

/// The eight counters, each summed over the CPUs, fit their fields.
pub open spec fn sums_fit(s: Seq<CaptureStats>) -> bool {
    &&& field_sum(s, |c: CaptureStats| submitted_of(c)) <= u64::MAX
    &&& field_sum(s, |c: CaptureStats| completed_of(c)) <= u64::MAX
    &&& field_sum(s, |c: CaptureStats| submit_errors_of(c)) <= u64::MAX
    &&& field_sum(s, |c: CaptureStats| ring_losses_of(c)) <= u64::MAX
    &&& field_sum(s, |c: CaptureStats| read_errors_of(c)) <= u64::MAX
    &&& field_sum(s, |c: CaptureStats| unsupported_of(c)) <= u64::MAX
    &&& field_sum(s, |c: CaptureStats| state_errors_of(c)) <= u64::MAX
    &&& field_sum(s, |c: CaptureStats| sg_events_of(c)) <= u64::MAX
}

proof fn lemma_field_sum_prefix(s: Seq<CaptureStats>, f: spec_fn(CaptureStats) -> u64, k: int)
    requires
        0 <= k <= s.len(),
    ensures
        field_sum(s.take(k), f) <= field_sum(s, f),
    decreases s.len() - k,
{
    if k < s.len() {
        lemma_field_sum_prefix(s, f, k + 1);
        assert(s.take(k + 1).drop_last() =~= s.take(k));
    } else {
        assert(s.take(k) =~= s);
    }
}

/// The capture counters of all CPUs added up.
pub fn total_stats(per_cpu: &[CaptureStats]) -> (r: CaptureStats)
    requires
        sums_fit(per_cpu@),
    ensures
        r.submitted == field_sum(per_cpu@, |c: CaptureStats| submitted_of(c)),
        r.completed == field_sum(per_cpu@, |c: CaptureStats| completed_of(c)),
        r.submit_errors == field_sum(per_cpu@, |c: CaptureStats| submit_errors_of(c)),
        r.ring_losses == field_sum(per_cpu@, |c: CaptureStats| ring_losses_of(c)),
        r.read_errors == field_sum(per_cpu@, |c: CaptureStats| read_errors_of(c)),
        r.unsupported_buffers == field_sum(per_cpu@, |c: CaptureStats| unsupported_of(c)),
        r.state_errors == field_sum(per_cpu@, |c: CaptureStats| state_errors_of(c)),
        r.sg_events == field_sum(per_cpu@, |c: CaptureStats| sg_events_of(c)),
{
    let ghost s = per_cpu@;
    let mut t = CaptureStats {
        submitted: 0,
        completed: 0,
        submit_errors: 0,
        ring_losses: 0,
        read_errors: 0,
        unsupported_buffers: 0,
        state_errors: 0,
        sg_events: 0,
    };
    let mut k: usize = 0;
    assert(s.take(0) =~= Seq::<CaptureStats>::empty());
    while k < per_cpu.len()
        invariant
            k <= s.len(),
            s == per_cpu@,
            sums_fit(s),
            t.submitted == field_sum(s.take(k as int), |c: CaptureStats| submitted_of(c)),
            t.completed == field_sum(s.take(k as int), |c: CaptureStats| completed_of(c)),
            t.submit_errors == field_sum(s.take(k as int), |c: CaptureStats| submit_errors_of(c)),
            t.ring_losses == field_sum(s.take(k as int), |c: CaptureStats| ring_losses_of(c)),
            t.read_errors == field_sum(s.take(k as int), |c: CaptureStats| read_errors_of(c)),
            t.unsupported_buffers == field_sum(s.take(k as int), |c: CaptureStats| unsupported_of(c)),
            t.state_errors == field_sum(s.take(k as int), |c: CaptureStats| state_errors_of(c)),
            t.sg_events == field_sum(s.take(k as int), |c: CaptureStats| sg_events_of(c)),
        decreases s.len() - k,
    {
        let c = per_cpu[k];
        proof {
            assert(s.take(k + 1).drop_last() =~= s.take(k as int));
            assert(s.take(k + 1).last() == c);
            lemma_field_sum_prefix(s, |c: CaptureStats| submitted_of(c), k + 1);
            lemma_field_sum_prefix(s, |c: CaptureStats| completed_of(c), k + 1);
            lemma_field_sum_prefix(s, |c: CaptureStats| submit_errors_of(c), k + 1);
            lemma_field_sum_prefix(s, |c: CaptureStats| ring_losses_of(c), k + 1);
            lemma_field_sum_prefix(s, |c: CaptureStats| read_errors_of(c), k + 1);
            lemma_field_sum_prefix(s, |c: CaptureStats| unsupported_of(c), k + 1);
            lemma_field_sum_prefix(s, |c: CaptureStats| state_errors_of(c), k + 1);
            lemma_field_sum_prefix(s, |c: CaptureStats| sg_events_of(c), k + 1);
        }
        t.submitted = t.submitted + c.submitted;
        t.completed = t.completed + c.completed;
        t.submit_errors = t.submit_errors + c.submit_errors;
        t.ring_losses = t.ring_losses + c.ring_losses;
        t.read_errors = t.read_errors + c.read_errors;
        t.unsupported_buffers = t.unsupported_buffers + c.unsupported_buffers;
        t.state_errors = t.state_errors + c.state_errors;
        t.sg_events = t.sg_events + c.sg_events;
        k = k + 1;
    }
    assert(s.take(s.len() as int) =~= s);
    t
}

} // verus!

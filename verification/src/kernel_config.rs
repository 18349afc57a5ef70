//! Whether the running arm64 kernel's memory layout is one that scatter-gather
//! capture understands, from its configuration and release string.
use crate::lexer::{chars_of, is_space, is_whitespace, slice_chars};
use crate::parser::{read_digits, text_eq, unsigned_value};
use crate::wire::{SG_ARM64_COMPACT, SG_ARM64_LEGACY, SgMemory};
use flate2::read::GzDecoder;
use std::io::Read;
use vstd::prelude::*;
use vstd::utf8::{decode_utf8, valid_utf8};

verus! {

/// Index of the first `c` in `s`, or its length.
pub open spec fn first_index(s: Seq<char>, c: char) -> nat
    decreases s.len(),
{
    if s.len() == 0 {
        0
    } else if s[0] == c {
        0
    } else {
        1 + first_index(s.drop_first(), c)
    }
}

/// Number of leading whitespace characters.
pub open spec fn lead_ws(s: Seq<char>) -> nat
    decreases s.len(),
{
    if s.len() > 0 && is_space(s[0]) {
        1 + lead_ws(s.drop_first())
    } else {
        0
    }
}

/// Number of trailing whitespace characters.
pub open spec fn trail_ws(s: Seq<char>) -> nat
    decreases s.len(),
{
    if s.len() > 0 && is_space(s.last()) {
        1 + trail_ws(s.drop_last())
    } else {
        0
    }
}

/// `s` without leading and trailing whitespace, as `str::trim` gives it.
pub open spec fn trim(s: Seq<char>) -> Seq<char> {
    if lead_ws(s) >= s.len() {
        Seq::empty()
    } else {
        s.subrange(lead_ws(s) as int, s.len() - trail_ws(s))
    }
}

/// A decimal `u32` as `str::parse` reads it.
pub open spec fn u32_of(p: Seq<char>) -> Option<u32> {
    match unsigned_value(p, false) {
        Some(v) => if v <= u32::MAX {
            Some(v as u32)
        } else {
            None
        },
        None => None,
    }
}

/// The major and minor version at the start of a release string.
pub open spec fn version(t: Seq<char>) -> Option<(u32, u32)> {
    let i = first_index(t, '.');
    if i >= t.len() {
        None
    } else {
        let rest = t.skip(i + 1int);
        let p2 = rest.take(first_index(rest, '.') as int);
        match (u32_of(t.take(i as int)), u32_of(p2)) {
            (Some(a), Some(b)) => Some((a, b)),
            _ => None,
        }
    }
}

/// The first line of `s`, without its line ending.
pub open spec fn first_line(s: Seq<char>) -> Seq<char> {
    let e = first_index(s, '\n');
    if e < s.len() && e > 0 && s[e - 1] == '\r' {
        s.take(e - 1)
    } else {
        s.take(e as int)
    }
}

/// What follows the first line of `s`.
pub open spec fn after_line(s: Seq<char>) -> Seq<char> {
    let e = first_index(s, '\n');
    if e < s.len() {
        s.skip(e + 1int)
    } else {
        Seq::empty()
    }
}

/// The value of the first line `key=value` of a configuration.
pub open spec fn config_value(s: Seq<char>, key: Seq<char>) -> Option<Seq<char>>
    decreases s.len(),
{
    if s.len() == 0 {
        None
    } else {
        let line = first_line(s);
        let i = first_index(line, '=');
        if i < line.len() && line.take(i as int) == key {
            Some(line.skip(i + 1int))
        } else {
            proof {
                lemma_first_index_bound(s, '\n');
            }
            config_value(after_line(s), key)
        }
    }
}

pub proof fn lemma_first_index_bound(s: Seq<char>, c: char)
    ensures
        first_index(s, c) <= s.len(),
        forall|j: int| 0 <= j < first_index(s, c) ==> s[j] != c,
        first_index(s, c) < s.len() ==> s[first_index(s, c) as int] == c,
    decreases s.len(),
{
    if s.len() > 0 && s[0] != c {
        lemma_first_index_bound(s.drop_first(), c);
        assert forall|j: int| 0 <= j < first_index(s, c) implies s[j] != c by {
            if j > 0 {
                assert(s[j] == s.drop_first()[j - 1]);
            }
        }
    }
}

proof fn lemma_first_index_is(s: Seq<char>, c: char, k: int)
    requires
        0 <= k <= s.len(),
        forall|j: int| 0 <= j < k ==> s[j] != c,
        k < s.len() ==> s[k] == c,
    ensures
        first_index(s, c) == k,
    decreases k,
{
    if k > 0 {
        assert forall|j: int| 0 <= j < k - 1 implies s.drop_first()[j] != c by {
            assert(s.drop_first()[j] == s[j + 1]);
        }
        lemma_first_index_is(s.drop_first(), c, k - 1);
    }
}

pub(crate) proof fn lemma_lead_is(s: Seq<char>, k: int)
    requires
        0 <= k <= s.len(),
        forall|j: int| 0 <= j < k ==> is_space(s[j]),
        k < s.len() ==> !is_space(s[k]),
    ensures
        lead_ws(s) == k,
    decreases k,
{
    if k > 0 {
        assert forall|j: int| 0 <= j < k - 1 implies is_space(s.drop_first()[j]) by {
            assert(s.drop_first()[j] == s[j + 1]);
        }
        lemma_lead_is(s.drop_first(), k - 1);
    }
}

proof fn lemma_trail_is(s: Seq<char>, k: int)
    requires
        0 <= k <= s.len(),
        forall|j: int| s.len() - k <= j < s.len() ==> is_space(s[j]),
        k < s.len() ==> !is_space(s[s.len() - 1 - k]),
    ensures
        trail_ws(s) == k,
    decreases k,
{
    if k > 0 {
        let d = s.drop_last();
        assert forall|j: int| d.len() - (k - 1) <= j < d.len() implies is_space(d[j]) by {
            assert(d[j] == s[j]);
        }
        if k - 1 < d.len() {
            assert(d[d.len() - 1 - (k - 1)] == s[s.len() - 1 - k]);
        }
        lemma_trail_is(d, k - 1);
    }
}

/// Index of the first `c` in `s` from `from` on, before `to`, or `to`.
pub(crate) fn find_from(s: &Vec<char>, from: usize, to: usize, c: char) -> (r: usize)
    requires
        from <= to <= s@.len(),
    ensures
        r == from + first_index(s@.subrange(from as int, to as int), c),
        from <= r <= to,
{
    let mut i = from;
    while i < to && s[i] != c
        invariant
            from <= i <= to <= s@.len(),
            forall|j: int| from <= j < i ==> s@[j] != c,
        decreases to - i,
    {
        i = i + 1;
    }
    proof {
        let t = s@.subrange(from as int, to as int);
        assert forall|j: int| 0 <= j < i - from implies t[j] != c by {
            assert(t[j] == s@[from + j]);
        }
        if i < to {
            assert(t[i - from] == s@[i as int]);
        }
        lemma_first_index_is(t, c, i - from);
    }
    i
}

/// `s` without leading and trailing whitespace (see [`trim`]).
fn trimmed(s: &Vec<char>) -> (r: Vec<char>)
    ensures
        r@ == trim(s@),
{
    let n = s.len();
    let mut lo: usize = 0;
    while lo < n && is_whitespace(s[lo])
        invariant
            lo <= n == s@.len(),
            forall|j: int| 0 <= j < lo ==> is_space(s@[j]),
        decreases n - lo,
    {
        lo = lo + 1;
    }
    proof {
        lemma_lead_is(s@, lo as int);
    }
    if lo == n {
        return Vec::new();
    }
    let mut hi: usize = n;
    while hi > lo && is_whitespace(s[hi - 1])
        invariant
            lo < n == s@.len(),
            lo <= hi <= n,
            !is_space(s@[lo as int]),
            forall|j: int| hi <= j < n ==> is_space(s@[j]),
        decreases hi,
    {
        hi = hi - 1;
    }
    proof {
        lemma_trail_is(s@, (n - hi) as int);
    }
    slice_chars(s, lo, hi)
}

/// A decimal `u32` (see [`u32_of`]).
fn parse_u32(p: &Vec<char>) -> (r: Option<u32>)
    ensures
        r == u32_of(p@),
{
    let from: usize = if p.len() > 0 && p[0] == '+' {
        1
    } else {
        0
    };
    proof {
        assert(p@.skip(0) =~= p@);
        if p@.len() > 0 {
            assert(p@.drop_first() =~= p@.skip(1));
        }
    }
    match read_digits(p, from, false, 0xffff_ffff) {
        Some(v) => Some(v as u32),
        None => None,
    }
}

/// The major and minor version of a trimmed release string (see [`version`]).
fn version_of(t: &Vec<char>) -> (r: Option<(u32, u32)>)
    ensures
        r == version(t@),
{
    let n = t.len();
    let i = find_from(t, 0, n, '.');
    assert(t@.subrange(0, n as int) =~= t@);
    if i >= n {
        return None;
    }
    let j = find_from(t, i + 1, n, '.');
    assert(t@.subrange(i + 1, n as int) =~= t@.skip(i + 1));
    let p1 = slice_chars(t, 0, i);
    let p2 = slice_chars(t, i + 1, j);
    assert(p1@ =~= t@.take(i as int));
    assert(p2@ =~= t@.skip(i + 1).take(j - i - 1));
    match (parse_u32(&p1), parse_u32(&p2)) {
        (Some(a), Some(b)) => Some((a, b)),
        _ => None,
    }
}

/// The value of the first line `key=value` (see [`config_value`]).
fn config_value_of(s: &Vec<char>, key: &str) -> (r: Option<Vec<char>>)
    ensures
        match r {
            Some(v) => config_value(s@, key@) == Some(v@),
            None => config_value(s@, key@) is None,
        },
{
    let n = s.len();
    let mut pos: usize = 0;
    assert(s@.skip(0) =~= s@);
    while pos < n
        invariant
            pos <= n == s@.len(),
            config_value(s@, key@) == config_value(s@.skip(pos as int), key@),
        decreases n - pos,
    {
        let ghost t = s@.skip(pos as int);
        let e = find_from(s, pos, n, '\n');
        assert(s@.subrange(pos as int, n as int) =~= t);
        let stop = if e < n && e > pos && s[e - 1] == '\r' {
            e - 1
        } else {
            e
        };
        let ghost line = first_line(t);
        assert(line =~= s@.subrange(pos as int, stop as int)) by {
            if e < n && e > pos {
                assert(t[e - pos - 1] == s@[e - 1]);
            }
        }
        let i = find_from(s, pos, stop, '=');
        if i < stop {
            let name = slice_chars(s, pos, i);
            assert(name@ =~= line.take(i - pos));
            if text_eq(&name, key) {
                let v = slice_chars(s, i + 1, stop);
                assert(v@ =~= line.skip(i - pos + 1));
                return Some(v);
            }
        }
        if e < n {
            assert(after_line(t) =~= s@.skip(e + 1));
            pos = e + 1;
        } else {
            assert(after_line(t) =~= Seq::<char>::empty());
            assert(config_value(after_line(t), key@) is None);
            return None;
        }
    }
    assert(s@.skip(pos as int).len() == 0);
    None
}

/// Whether the configuration sets `key` to `y`.
fn enabled(config: &Vec<char>, key: &str) -> (r: bool)
    ensures
        r == (config_value(config@, key@) == Some("y"@)),
{
    match config_value_of(config, key) {
        Some(v) => text_eq(&v, "y"),
        None => false,
    }
}

/// The scatter-gather memory layout of an arm64 kernel, when its configuration and
/// release make it one that capture supports.
pub open spec fn arm64_layout(config: Seq<char>, page_size: u32, release: Seq<char>) -> Option<
    SgMemory,
> {
    match version(trim(release)) {
        None => None,
        Some((major, minor)) => if major < 5 || (major == 5 && minor < 17) {
            None
        } else {
            let layout = if major > 6 || (major == 6 && minor >= 9) {
                SG_ARM64_COMPACT
            } else {
                SG_ARM64_LEGACY
            };
            let y = Some("y"@);
            if config_value(config, "CONFIG_ARM64"@) != y || config_value(
                config,
                "CONFIG_SPARSEMEM_VMEMMAP"@,
            ) != y || config_value(config, "CONFIG_KASAN_SW_TAGS"@) == y || config_value(
                config,
                "CONFIG_KASAN_HW_TAGS"@,
            ) == y {
                None
            } else if !(page_size == 4096 || page_size == 16384 || page_size == 65536) {
                None
            } else {
                let (shift, option): (u32, Seq<char>) = if page_size == 4096 {
                    (12, "CONFIG_ARM64_4K_PAGES"@)
                } else if page_size == 16384 {
                    (14, "CONFIG_ARM64_16K_PAGES"@)
                } else {
                    (16, "CONFIG_ARM64_64K_PAGES"@)
                };
                match config_value(config, "CONFIG_ARM64_VA_BITS"@) {
                    None => None,
                    Some(text) => match u32_of(text) {
                        None => None,
                        Some(va) => {
                            let valid = if page_size == 4096 {
                                va == 39 || va == 48
                            } else if page_size == 16384 {
                                va == 36 || va == 47 || va == 48
                            } else {
                                va == 42 || va == 48 || va == 52
                            };
                            if config_value(config, option) != y || !valid {
                                None
                            } else {
                                Some(
                                    SgMemory {
                                        vmemmap_symbol: 0,
                                        page_offset_symbol: 0,
                                        page_shift: shift,
                                        va_bits: va,
                                        layout,
                                        padding: 0,
                                    },
                                )
                            }
                        },
                    },
                }
            }
        },
    }
}

/// Each supported page size accepts exactly its own virtual-address widths: 4K
/// pages 39 and 48 bits, 16K pages 36, 47 and 48 bits, 64K pages 42, 48 and 52
/// bits. On a kernel that is otherwise fit for scatter-gather capture the layout
/// is given exactly for those widths, with the page's shift and the width read,
/// and in the compact form from release 6.9 on.
pub proof fn law_arm64_va_widths(config: Seq<char>, page_size: u32, release: Seq<char>, va: u32)
    requires
        version(trim(release)) matches Some((major, minor)) && (major > 5 || (major == 5 && minor
            >= 17)),
        config_value(config, "CONFIG_ARM64"@) == Some("y"@),
        config_value(config, "CONFIG_SPARSEMEM_VMEMMAP"@) == Some("y"@),
        config_value(config, "CONFIG_KASAN_SW_TAGS"@) != Some("y"@),
        config_value(config, "CONFIG_KASAN_HW_TAGS"@) != Some("y"@),
        page_size == 4096 ==> config_value(config, "CONFIG_ARM64_4K_PAGES"@) == Some("y"@),
        page_size == 16384 ==> config_value(config, "CONFIG_ARM64_16K_PAGES"@) == Some("y"@),
        page_size == 65536 ==> config_value(config, "CONFIG_ARM64_64K_PAGES"@) == Some("y"@),
        config_value(config, "CONFIG_ARM64_VA_BITS"@) matches Some(t) && u32_of(t) == Some(va),
    ensures
        arm64_layout(config, page_size, release) is Some <==> (page_size == 4096 && (va == 39
            || va == 48)) || (page_size == 16384 && (va == 36 || va == 47 || va == 48)) || (
        page_size == 65536 && (va == 42 || va == 48 || va == 52)),
        arm64_layout(config, page_size, release) matches Some(m) ==> m.va_bits == va
            && m.page_shift == (if page_size == 4096 {
            12u32
        } else if page_size == 16384 {
            14u32
        } else {
            16u32
        }),
        arm64_layout(config, page_size, release) matches Some(m) ==> (version(trim(release))
            matches Some((major, minor)) && m.layout == (if major > 6 || (major == 6 && minor >= 9) {
            SG_ARM64_COMPACT
        } else {
            SG_ARM64_LEGACY
        })),
{
}

/// The scatter-gather memory layout of an arm64 kernel (see [`arm64_layout`]).
pub fn arm64_memory(config: &str, page_size: u32, release: &str) -> (r: Option<SgMemory>)
    ensures
        r == arm64_layout(config@, page_size, release@),
{
    let release = trimmed(&chars_of(release));
    let (major, minor) = match version_of(&release) {
        None => {
            return None;
        },
        Some(v) => v,
    };
    if major < 5 || (major == 5 && minor < 17) {
        return None;
    }
    let layout = if major > 6 || (major == 6 && minor >= 9) {
        SG_ARM64_COMPACT
    } else {
        SG_ARM64_LEGACY
    };
    let config = chars_of(config);
    if !enabled(&config, "CONFIG_ARM64") || !enabled(&config, "CONFIG_SPARSEMEM_VMEMMAP")
        || enabled(&config, "CONFIG_KASAN_SW_TAGS") || enabled(&config, "CONFIG_KASAN_HW_TAGS") {
        return None;
    }
    let (page_shift, page_option): (u32, &str) = if page_size == 4096 {
        (12, "CONFIG_ARM64_4K_PAGES")
    } else if page_size == 16384 {
        (14, "CONFIG_ARM64_16K_PAGES")
    } else if page_size == 65536 {
        (16, "CONFIG_ARM64_64K_PAGES")
    } else {
        return None;
    };
    let text = match config_value_of(&config, "CONFIG_ARM64_VA_BITS") {
        None => {
            return None;
        },
        Some(t) => t,
    };
    let va_bits = match parse_u32(&text) {
        None => {
            return None;
        },
        Some(v) => v,
    };
    let valid = if page_size == 4096 {
        va_bits == 39 || va_bits == 48
    } else if page_size == 16384 {
        va_bits == 36 || va_bits == 47 || va_bits == 48
    } else {
        va_bits == 42 || va_bits == 48 || va_bits == 52
    };
    if !enabled(&config, page_option) || !valid {
        return None;
    }
    Some(
        SgMemory {
            vmemmap_symbol: 0,
            page_offset_symbol: 0,
            page_shift,
            va_bits,
            layout,
            padding: 0,
        },
    )
}

/// Most bytes of kernel configuration text accepted.
pub const MAX_CONFIG: u64 = 16777216;

/// Why the kernel configuration could not be read.
#[derive(Clone, Copy, Debug, PartialEq, Eq, Structural)]
pub enum ConfigError {
    /// The gzip stream could not be decoded.
    Undecodable,
    /// The text is not UTF-8.
    NotUtf8,
    /// The text is longer than [`MAX_CONFIG`] bytes.
    TooLarge,
}

/// What `flate2`'s gzip decoder gives for `bytes`, reading at most `limit`
/// decompressed bytes: `None` when the stream cannot be decoded.
pub uninterp spec fn gunzipped(bytes: Seq<u8>, limit: u64) -> Option<Seq<u8>>;

/// Decompresses the gzip stream `bytes` with `flate2::read::GzDecoder`, reading
/// through `Read::take(limit)` with `Read::read_to_end`. The contract names the
/// outcome, which is determined by the bytes and the limit, and claims what
/// `take` documents: no more than `limit` bytes come out.
#[verifier::external_body]
fn gunzip(bytes: &[u8], limit: u64) -> (r: Option<Vec<u8>>)
    ensures
        match r {
            Some(v) => gunzipped(bytes@, limit) == Some(v@) && v@.len() <= limit,
            None => gunzipped(bytes@, limit) is None,
        },
{
    let mut out = Vec::new();
    match GzDecoder::new(bytes).take(limit).read_to_end(&mut out) {
        Ok(_) => Some(out),
        Err(_) => None,
    }
}

/// Reads `bytes` as a `String` with `String::from_utf8`, which succeeds exactly on
/// valid UTF-8 and then holds the characters the bytes encode.
#[verifier::external_body]
fn utf8_text(bytes: Vec<u8>) -> (r: Option<String>)
    ensures
        r is Some <==> valid_utf8(bytes@),
        r matches Some(t) ==> t@ == decode_utf8(bytes@),
{
    String::from_utf8(bytes).ok()
}

/// The verdict on decompressed configuration bytes, read as far as one byte past
/// the limit: not UTF-8, too large, or the text.
pub open spec fn config_text(decoded: Seq<u8>) -> Result<Seq<char>, ConfigError> {
    if !valid_utf8(decoded) {
        Err(ConfigError::NotUtf8)
    } else if decoded.len() > MAX_CONFIG {
        Err(ConfigError::TooLarge)
    } else {
        Ok(decode_utf8(decoded))
    }
}

/// The configuration text of decompressed bytes (see [`config_text`]).
pub fn config_text_of(decoded: Vec<u8>) -> (r: Result<String, ConfigError>)
    ensures
        match config_text(decoded@) {
            Ok(t) => r matches Ok(s) && s@ == t,
            Err(e) => r == Err::<String, ConfigError>(e),
        },
{
    let len = decoded.len();
    match utf8_text(decoded) {
        None => Err(ConfigError::NotUtf8),
        Some(text) => if len as u64 > MAX_CONFIG {
            Err(ConfigError::TooLarge)
        } else {
            Ok(text)
        },
    }
}

/// The kernel configuration held in the gzip stream `compressed`, as
/// `/proc/config.gz` holds it: decoded up to one byte past [`MAX_CONFIG`], then
/// judged by [`config_text`].
pub fn kernel_config_text(compressed: &[u8]) -> (r: Result<String, ConfigError>)
    ensures
        match gunzipped(compressed@, (MAX_CONFIG + 1) as u64) {
            None => r == Err::<String, ConfigError>(ConfigError::Undecodable),
            Some(d) => match config_text(d) {
                Ok(t) => r matches Ok(s) && s@ == t,
                Err(e) => r == Err::<String, ConfigError>(e),
            },
        },
{
    match gunzip(compressed, MAX_CONFIG + 1) {
        None => Err(ConfigError::Undecodable),
        Some(decoded) => config_text_of(decoded),
    }
}

} // verus!

//! USB filter expressions and their evaluation. Missing event fields use
//! three-valued logic: `not unknown` remains unknown and cannot match.
use crate::archive::Event;
use crate::bytes::{be_at, be_value};
use crate::wire::{
    EventMeta, IsoDescriptor, KernelPredicate, MAX_KERNEL_PREDICATES, kernel_compare, kernel_field,
};
use crate::parser::{lemma_source_well_formed, parse_filter, parse_source};
use crate::search::{occurs, occurs_in, prefix_table, prefix_table_of};
use vstd::prelude::*;

verus! {

#[derive(Clone, Copy, Debug, PartialEq, Eq, Structural)]
pub enum Truth {
    False,
    True,
    Unknown,
}

impl Truth {
    pub open spec fn spec_not(self) -> Self {
        match self {
            Truth::False => Truth::True,
            Truth::True => Truth::False,
            Truth::Unknown => Truth::Unknown,
        }
    }

    pub open spec fn spec_and(self, other: Self) -> Self {
        if self == Truth::False || other == Truth::False {
            Truth::False
        } else if self == Truth::True && other == Truth::True {
            Truth::True
        } else {
            Truth::Unknown
        }
    }

    pub open spec fn spec_or(self, other: Self) -> Self {
        if self == Truth::True || other == Truth::True {
            Truth::True
        } else if self == Truth::False && other == Truth::False {
            Truth::False
        } else {
            Truth::Unknown
        }
    }

    pub open spec fn of(b: bool) -> Self {
        if b {
            Truth::True
        } else {
            Truth::False
        }
    }

    pub fn not(self) -> (r: Self)
        ensures
            r == self.spec_not(),
    {
        match self {
            Truth::False => Truth::True,
            Truth::True => Truth::False,
            Truth::Unknown => self,
        }
    }

    pub fn and(self, other: Self) -> (r: Self)
        ensures
            r == self.spec_and(other),
    {
        match (self, other) {
            (Truth::False, _) | (_, Truth::False) => Truth::False,
            (Truth::True, Truth::True) => Truth::True,
            _ => Truth::Unknown,
        }
    }

    pub fn or(self, other: Self) -> (r: Self)
        ensures
            r == self.spec_or(other),
    {
        match (self, other) {
            (Truth::True, _) | (_, Truth::True) => Truth::True,
            (Truth::False, Truth::False) => Truth::False,
            _ => Truth::Unknown,
        }
    }

    pub fn from_bool(value: bool) -> (r: Self)
        ensures
            r == Truth::of(value),
    {
        if value {
            Truth::True
        } else {
            Truth::False
        }
    }
}

/// Double negation, De Morgan and the absorbing unknown of the three-valued logic.
pub proof fn law_truth_algebra(a: Truth, b: Truth)
    ensures
        a.spec_not().spec_not() == a,
        a.spec_and(b).spec_not() == a.spec_not().spec_or(b.spec_not()),
        a.spec_or(b).spec_not() == a.spec_not().spec_and(b.spec_not()),
        a.spec_and(b) == b.spec_and(a),
        a.spec_or(b) == b.spec_or(a),
        Truth::Unknown.spec_not() == Truth::Unknown,
        (a.spec_and(b) == Truth::True) <==> (a == Truth::True && b == Truth::True),
        (a.spec_or(b) == Truth::False) <==> (a == Truth::False && b == Truth::False),
{
}

#[derive(Clone, Copy, Debug, PartialEq, Eq, Structural)]
pub enum Field {
    Bus,
    Device,
    Vid,
    Pid,
    Endpoint,
    EpNum,
    Direction,
    Transfer,
    Requested,
    Actual,
    Length,
    Captured,
    Frames,
    Status,
    Event,
    Interval,
    StartFrame,
    Errors,
    UrbId,
    Request,
    RequestType,
    Value,
    Index,
    SetupLength,
    Latency,
    Payload(u64, u8),
}

#[derive(Clone, Copy, Debug, PartialEq, Eq, Structural)]
pub enum Compare {
    Eq,
    Ne,
    Lt,
    Le,
    Gt,
    Ge,
}

impl Compare {
    pub open spec fn holds(self, a: int, b: int) -> bool {
        match self {
            Compare::Eq => a == b,
            Compare::Ne => a != b,
            Compare::Lt => a < b,
            Compare::Le => a <= b,
            Compare::Gt => a > b,
            Compare::Ge => a >= b,
        }
    }

    pub open spec fn spec_invert(self) -> Self {
        match self {
            Compare::Eq => Compare::Ne,
            Compare::Ne => Compare::Eq,
            Compare::Lt => Compare::Ge,
            Compare::Le => Compare::Gt,
            Compare::Gt => Compare::Le,
            Compare::Ge => Compare::Lt,
        }
    }

    pub open spec fn spec_code(self) -> u32 {
        match self {
            Compare::Eq => 0,
            Compare::Ne => 1,
            Compare::Lt => 2,
            Compare::Le => 3,
            Compare::Gt => 4,
            Compare::Ge => 5,
        }
    }

    pub fn matches(self, a: i128, b: i128) -> (r: bool)
        ensures
            r == self.holds(a as int, b as int),
    {
        match self {
            Compare::Eq => a == b,
            Compare::Ne => a != b,
            Compare::Lt => a < b,
            Compare::Le => a <= b,
            Compare::Gt => a > b,
            Compare::Ge => a >= b,
        }
    }

    pub fn invert(self) -> (r: Self)
        ensures
            r == self.spec_invert(),
    {
        match self {
            Compare::Eq => Compare::Ne,
            Compare::Ne => Compare::Eq,
            Compare::Lt => Compare::Ge,
            Compare::Le => Compare::Gt,
            Compare::Gt => Compare::Le,
            Compare::Ge => Compare::Lt,
        }
    }

    pub fn code(self) -> (r: u32)
        ensures
            r == self.spec_code(),
    {
        match self {
            Compare::Eq => 0,
            Compare::Ne => 1,
            Compare::Lt => 2,
            Compare::Le => 3,
            Compare::Gt => 4,
            Compare::Ge => 5,
        }
    }
}

/// An inverted comparison holds exactly when the comparison itself fails, and inverting twice
/// gives the comparison back.
pub proof fn law_invert_negates(c: Compare, a: int, b: int)
    ensures
        c.spec_invert().holds(a, b) == !c.holds(a, b),
        c.spec_invert().spec_invert() == c,
{
}

#[derive(Clone, Copy, Debug, PartialEq, Eq, Structural)]
pub struct Predicate {
    pub field: Field,
    pub mask: Option<u64>,
    pub comparison: Compare,
    pub value: i128,
}

/// A parsed filter expression.
#[derive(Debug)]
pub enum Expr {
    All,
    Predicate(Predicate),
    Contains(Vec<u8>),
    And(Box<Expr>, Box<Expr>),
    Or(Box<Expr>, Box<Expr>),
    Not(Box<Expr>),
}

/// The mathematical form of a filter expression.
pub enum Formula {
    All,
    Predicate(Predicate),
    Contains(Seq<u8>),
    And(Box<Formula>, Box<Formula>),
    Or(Box<Formula>, Box<Formula>),
    Not(Box<Formula>),
}

impl Expr {
    pub open spec fn formula(&self) -> Formula
        decreases self,
    {
        match self {
            Expr::All => Formula::All,
            Expr::Predicate(p) => Formula::Predicate(*p),
            Expr::Contains(n) => Formula::Contains(n@),
            Expr::And(a, b) => Formula::And(Box::new(a.formula()), Box::new(b.formula())),
            Expr::Or(a, b) => Formula::Or(Box::new(a.formula()), Box::new(b.formula())),
            Expr::Not(a) => Formula::Not(Box::new(a.formula())),
        }
    }
}

/// Byte extractions read one, two, four or eight bytes.
pub open spec fn width_valid(field: Field) -> bool {
    match field {
        Field::Payload(_, size) => size == 1 || size == 2 || size == 4 || size == 8,
        _ => true,
    }
}

/// Whether an expression is built only from well-formed leaves: non-empty patterns
/// and byte extractions of a supported width.
pub open spec fn well_formed(f: Formula) -> bool
    decreases f,
{
    match f {
        Formula::Contains(n) => n.len() > 0,
        Formula::Predicate(p) => width_valid(p.field),
        Formula::And(a, b) => well_formed(*a) && well_formed(*b),
        Formula::Or(a, b) => well_formed(*a) && well_formed(*b),
        Formula::Not(a) => well_formed(*a),
        _ => true,
    }
}

/// Why a filter could not be parsed, or an event could not be examined.
#[derive(Clone, Copy, Debug, PartialEq, Eq, Structural)]
pub enum FilterError {
    UnfinishedEscape,
    UnterminatedQuote,
    UnexpectedToken,
    UnexpectedEnd,
    ExpectedCloseParen,
    ExpectedOpenBracket,
    ExpectedCloseBracket,
    NestingTooDeep,
    UnknownField,
    PatternNotHex,
    OddHexPattern,
    InvalidHexPattern,
    EmptyPattern,
    InvalidPayloadOffset,
    InvalidPayloadWidth,
    InvalidMask,
    InvalidHexNumber,
    InvalidNumber,
    NumberOutOfRange,
    PayloadUnavailable,
}

/// `len` is the phase's length: what was requested on a submission, what was
/// transferred on any other event; so it agrees with `requested` on a submission
/// whose request is known and with `actual` on a completion. `type` is the
/// event's transfer-type code, the direction is the endpoint address's top bit,
/// and the endpoint number is its low four bits.
pub proof fn law_length_is_phase_specific(e: Event, latency: Option<u64>)
    ensures
        field_value(Field::Length, &e, latency) == Ok::<Option<int>, FilterError>(
            Some(
                if e.meta.event_type == 0x53 {
                    e.meta.requested_len as int
                } else {
                    e.meta.actual_len as int
                },
            ),
        ),
        e.meta.event_type == 0x53 && e.requested_known ==> field_value(Field::Length, &e, latency)
            == field_value(Field::Requested, &e, latency),
        e.meta.event_type != 0x53 ==> field_value(Field::Length, &e, latency) == field_value(
            Field::Actual,
            &e,
            latency,
        ),
        field_value(Field::Transfer, &e, latency) == Ok::<Option<int>, FilterError>(
            Some(e.meta.transfer_type as int),
        ),
        field_value(Field::Direction, &e, latency) == Ok::<Option<int>, FilterError>(
            Some(if e.meta.endpoint >= 128 {
                1int
            } else {
                0int
            }),
        ),
        field_value(Field::EpNum, &e, latency) matches Ok(Some(v)) && 0 <= v < 16 && (
        e.meta.endpoint - v) % 16 == 0,
{
}

/// `v` reduced to its low 64 bits, as `v as u64` does.
pub open spec fn low64(v: int) -> u64 {
    (v % 0x1_0000_0000_0000_0000) as u64
}

/// Control setup fields are decoded as little-endian values.
pub open spec fn setup_word(m: EventMeta, at: int) -> int {
    m.setup@[at] as int + 256 * m.setup@[at + 1] as int
}

/// Whether `[offset, end)` lies inside one ISO frame.
pub open spec fn inside_frame(iso: Seq<IsoDescriptor>, offset: int, end: int) -> bool {
    exists|i: int|
        0 <= i < iso.len() && offset >= iso[i].offset && end <= iso[i].offset as int
            + iso[i].length as int
}

/// The value a field takes for an event: `Ok(None)` when unknown, an error when
/// the payload bytes that a byte extraction reads are missing.
pub open spec fn field_value(field: Field, e: &Event, latency: Option<u64>) -> Result<
    Option<int>,
    FilterError,
> {
    let m = e.meta;
    if (field == Field::Vid || field == Field::Pid) && !e.identity_known || field
        == Field::Requested && !e.requested_known {
        Ok(None)
    } else {
        match field {
            Field::Bus => Ok(Some(m.bus as int)),
            Field::Device => Ok(Some(m.device as int)),
            Field::Vid => Ok(Some(m.vid as int)),
            Field::Pid => Ok(Some(m.pid as int)),
            Field::Endpoint => Ok(Some(m.endpoint as int)),
            Field::EpNum => Ok(Some(m.endpoint as int % 16)),
            Field::Direction => Ok(Some(m.endpoint as int / 128)),
            Field::Transfer => Ok(Some(m.transfer_type as int)),
            Field::Requested => Ok(Some(m.requested_len as int)),
            Field::Actual => if m.event_type == 0x53 {
                Ok(None)
            } else {
                Ok(Some(m.actual_len as int))
            },
            Field::Length => if m.event_type == 0x53 {
                Ok(Some(m.requested_len as int))
            } else {
                Ok(Some(m.actual_len as int))
            },
            Field::Captured => Ok(Some(m.payload_len as int)),
            Field::Frames => Ok(Some(m.iso_count as int)),
            Field::Status => Ok(Some(m.status as int)),
            Field::Event => Ok(Some(m.event_type as int)),
            Field::Interval => Ok(Some(m.interval as int)),
            Field::StartFrame => Ok(Some(m.start_frame as int)),
            Field::Errors => Ok(Some(m.error_count as int)),
            Field::UrbId => Ok(Some(m.urb_id as int)),
            Field::Latency => match latency {
                Some(l) => Ok(Some(l as int)),
                None => Ok(None),
            },
            Field::Request => if m.setup_present == 0 {
                Ok(None)
            } else {
                Ok(Some(m.setup@[1] as int))
            },
            Field::RequestType => if m.setup_present == 0 {
                Ok(None)
            } else {
                Ok(Some(m.setup@[0] as int))
            },
            Field::Value => if m.setup_present == 0 {
                Ok(None)
            } else {
                Ok(Some(setup_word(m, 2)))
            },
            Field::Index => if m.setup_present == 0 {
                Ok(None)
            } else {
                Ok(Some(setup_word(m, 4)))
            },
            Field::SetupLength => if m.setup_present == 0 {
                Ok(None)
            } else {
                Ok(Some(setup_word(m, 6)))
            },
            Field::Payload(offset, size) => {
                let end = offset as int + size as int;
                if end > u64::MAX || m.has_data == 0 || end > m.payload_len {
                    Ok(None)
                } else if m.transfer_type == 0 && !inside_frame(e.iso@, offset as int, end) {
                    Ok(None)
                } else if end > e.payload@.len() {
                    Err(FilterError::PayloadUnavailable)
                } else {
                    Ok(Some(be_value(e.payload@, offset as int, size as nat) as int))
                }
            },
        }
    }
}

/// Truth of one predicate for an event.
pub open spec fn predicate_truth(p: Predicate, e: &Event, latency: Option<u64>) -> Result<
    Truth,
    FilterError,
> {
    match field_value(p.field, e, latency) {
        Err(err) => Err(err),
        Ok(None) => Ok(Truth::Unknown),
        Ok(Some(v)) => {
            let v = match p.mask {
                Some(mask) => (low64(v) & mask) as int,
                None => v,
            };
            Ok(Truth::of(p.comparison.holds(v, p.value as int)))
        },
    }
}

/// The byte ranges a payload search scans: each ISO frame, or the whole captured span.
pub open spec fn search_ranges(e: &Event) -> Seq<(int, int)> {
    if e.meta.transfer_type == 0 {
        e.iso@.map_values(|d: IsoDescriptor| (d.offset as int, d.length as int))
    } else {
        seq![(0int, e.meta.payload_len as int)]
    }
}

/// Payload bytes are searched in blocks of this many bytes.
pub const SEARCH_BLOCK: u64 = 16384;

/// How much of the range at `offset` of `length` bytes can be searched: all of it
/// when the payload holds it, else its whole blocks that the payload holds; the
/// block that reaches past the payload cannot be read.
pub open spec fn readable_len(payload_len: int, offset: int, length: int) -> int {
    if offset + length <= payload_len {
        length
    } else if offset >= payload_len {
        0
    } else {
        (payload_len - offset) / SEARCH_BLOCK as int * SEARCH_BLOCK as int
    }
}

/// Searches the ranges from index `i` on, in order; a match never spans two ranges.
/// A range is searched block by block: a match in its readable part is found, and
/// a block it cannot read is an error.
pub open spec fn search_from(needle: Seq<u8>, payload: Seq<u8>, ranges: Seq<(int, int)>, i: int) -> Result<
    bool,
    FilterError,
>
    decreases ranges.len() - i,
{
    if i < 0 || i >= ranges.len() {
        Ok(false)
    } else {
        let (offset, length) = ranges[i];
        let readable = readable_len(payload.len() as int, offset, length);
        if readable > 0 && occurs(needle, payload.subrange(offset, offset + readable)) {
            Ok(true)
        } else if readable < length {
            Err(FilterError::PayloadUnavailable)
        } else {
            search_from(needle, payload, ranges, i + 1)
        }
    }
}

/// Truth of a formula for an event, evaluated left to right: `and` stops at a false
/// left side and `or` at a true one, so a right side is only examined when needed.
pub open spec fn eval(f: Formula, e: &Event, latency: Option<u64>) -> Result<Truth, FilterError>
    decreases f,
{
    match f {
        Formula::All => Ok(Truth::True),
        Formula::Not(a) => match eval(*a, e, latency) {
            Ok(t) => Ok(t.spec_not()),
            Err(err) => Err(err),
        },
        Formula::And(a, b) => match eval(*a, e, latency) {
            Err(err) => Err(err),
            Ok(Truth::False) => Ok(Truth::False),
            Ok(ta) => match eval(*b, e, latency) {
                Err(err) => Err(err),
                Ok(tb) => Ok(ta.spec_and(tb)),
            },
        },
        Formula::Or(a, b) => match eval(*a, e, latency) {
            Err(err) => Err(err),
            Ok(Truth::True) => Ok(Truth::True),
            Ok(ta) => match eval(*b, e, latency) {
                Err(err) => Err(err),
                Ok(tb) => Ok(ta.spec_or(tb)),
            },
        },
        Formula::Predicate(p) => predicate_truth(p, e, latency),
        Formula::Contains(needle) => if e.meta.has_data == 0 {
            Ok(Truth::Unknown)
        } else {
            match search_from(needle, e.payload@, search_ranges(e), 0) {
                Ok(b) => Ok(Truth::of(b)),
                Err(err) => Err(err),
            }
        },
    }
}

/// No event is selected both by a filter and by its negation: `not` turns a
/// selection into a rejection and leaves unknown results unknown, so at most one of
/// the two matches.
pub proof fn law_never_selected_both_ways(f: Formula, e: &Event, latency: Option<u64>)
    ensures
        !(eval(f, e, latency) == Ok::<Truth, FilterError>(Truth::True) && eval(
            Formula::Not(Box::new(f)),
            e,
            latency,
        ) == Ok::<Truth, FilterError>(Truth::True)),
        eval(Formula::Not(Box::new(f)), e, latency) == Ok::<Truth, FilterError>(Truth::True)
            <==> eval(f, e, latency) == Ok::<Truth, FilterError>(Truth::False),
{
}

/// A predicate on a field an event does not record neither matches nor matches
/// when negated: its truth and that of its negation are both unknown. Fields
/// unknown in this sense include the VID and PID of an event read from pcapng, the
/// requested length of a completion whose submission was not seen, and the latency
/// of a submission.
pub proof fn law_unknown_field_matches_neither_way(p: Predicate, e: &Event, latency: Option<u64>)
    requires
        field_value(p.field, e, latency) == Ok::<Option<int>, FilterError>(None),
    ensures
        eval(Formula::Predicate(p), e, latency) == Ok::<Truth, FilterError>(Truth::Unknown),
        eval(Formula::Not(Box::new(Formula::Predicate(p))), e, latency) == Ok::<
            Truth,
            FilterError,
        >(Truth::Unknown),
        !e.identity_known ==> field_value(Field::Vid, e, latency) == Ok::<Option<int>, FilterError>(
            None,
        ) && field_value(Field::Pid, e, latency) == Ok::<Option<int>, FilterError>(None),
        !e.requested_known ==> field_value(Field::Requested, e, latency) == Ok::<
            Option<int>,
            FilterError,
        >(None),
        latency is None ==> field_value(Field::Latency, e, latency) == Ok::<Option<int>, FilterError>(
            None,
        ),
{
}

pub open spec fn formula_needs_latency(f: Formula) -> bool
    decreases f,
{
    match f {
        Formula::Predicate(p) => p.field == Field::Latency,
        Formula::Not(a) => formula_needs_latency(*a),
        Formula::And(a, b) => formula_needs_latency(*a) || formula_needs_latency(*b),
        Formula::Or(a, b) => formula_needs_latency(*a) || formula_needs_latency(*b),
        _ => false,
    }
}

/// `p` with its comparison inverted when `negated`.
pub open spec fn oriented(p: Predicate, negated: bool) -> Predicate {
    if negated {
        Predicate { comparison: p.comparison.spec_invert(), ..p }
    } else {
        p
    }
}

/// `left` followed by the members of `right` it does not already hold.
pub open spec fn union(left: Seq<Predicate>, right: Seq<Predicate>) -> Seq<Predicate>
    decreases right.len(),
{
    if right.len() == 0 {
        left
    } else {
        let l = union(left, right.drop_last());
        if l.contains(right.last()) {
            l
        } else {
            l.push(right.last())
        }
    }
}

/// The members of `left` that `right` also holds, in order.
pub open spec fn intersection(left: Seq<Predicate>, right: Seq<Predicate>) -> Seq<Predicate> {
    left.filter(|p: Predicate| right.contains(p))
}

/// Predicates that every event selected by `f` satisfies (every event `f` rejects,
/// when `negated`): a conjunction needs both sides' requirements, a disjunction
/// only those common to both.
pub open spec fn required(f: Formula, negated: bool) -> Seq<Predicate>
    decreases f,
{
    match f {
        Formula::Predicate(p) => seq![oriented(p, negated)],
        Formula::Not(a) => required(*a, !negated),
        Formula::And(a, b) => if !negated {
            union(required(*a, negated), required(*b, negated))
        } else {
            intersection(required(*a, negated), required(*b, negated))
        },
        Formula::Or(a, b) => if negated {
            union(required(*a, negated), required(*b, negated))
        } else {
            intersection(required(*a, negated), required(*b, negated))
        },
        _ => Seq::empty(),
    }
}

/// Kernel field code of a field that cannot change between submission and completion.
pub open spec fn kernel_code(f: Field) -> Option<u32> {
    match f {
        Field::Bus => Some(1u32),
        Field::Device => Some(2u32),
        Field::Vid => Some(3u32),
        Field::Pid => Some(4u32),
        Field::Endpoint => Some(5u32),
        Field::EpNum => Some(6u32),
        Field::Direction => Some(7u32),
        Field::Transfer => Some(8u32),
        Field::Requested => Some(9u32),
        Field::Frames => Some(10u32),
        _ => None,
    }
}

/// The kernel form of a predicate, when its field is kernel-visible and its value
/// is an unsigned 64-bit number.
pub open spec fn to_kernel(p: Predicate) -> Option<KernelPredicate> {
    match kernel_code(p.field) {
        None => None,
        Some(code) => if 0 <= p.value <= u64::MAX {
            Some(
                KernelPredicate {
                    field: code,
                    comparison: p.comparison.spec_code(),
                    value: p.value as u64,
                    mask: match p.mask {
                        Some(m) => m,
                        None => u64::MAX,
                    },
                },
            )
        } else {
            None
        },
    }
}

pub open spec fn kernel_list(ps: Seq<Predicate>) -> Seq<KernelPredicate>
    decreases ps.len(),
{
    if ps.len() == 0 {
        Seq::empty()
    } else {
        let rest = kernel_list(ps.drop_last());
        match to_kernel(ps.last()) {
            Some(k) => rest.push(k),
            None => rest,
        }
    }
}

/// The predicates pushed into the kernel for a formula: at most the first 64
/// convertible necessary ones.
pub open spec fn kernel_predicates_of(f: Formula) -> Seq<KernelPredicate> {
    let all = kernel_list(required(f, false));
    if all.len() <= MAX_KERNEL_PREDICATES {
        all
    } else {
        all.take(MAX_KERNEL_PREDICATES as int)
    }
}

/// A compiled USB filter.
#[derive(Debug)]
pub struct Filter {
    expression: Expr,
}

impl Filter {
    /// The formula this filter evaluates.
    pub closed spec fn formula(&self) -> Formula {
        self.expression.formula()
    }

    #[verifier::type_invariant]
    closed spec fn inv(self) -> bool {
        well_formed(self.expression.formula())
    }

    /// Parses a filter; one without tokens selects every event.
    pub fn parse(source: &str) -> (r: Result<Self, FilterError>)
        ensures
            match r {
                Ok(f) => parse_source(source@) == Ok::<Formula, FilterError>(f.formula()),
                Err(e) => parse_source(source@) == Err::<Formula, FilterError>(e),
            },
    {
        match parse_filter(source) {
            Err(e) => Err(e),
            Ok(expression) => {
                proof {
                    lemma_source_well_formed(source@);
                }
                Ok(Filter { expression })
            },
        }
    }

    /// Whether the event is selected: the expression must be true, not unknown.
    pub fn matches(&self, event: &Event, latency_ns: Option<u64>) -> (r: Result<bool, FilterError>)
        ensures
            r == match eval(self.formula(), event, latency_ns) {
                Ok(t) => Ok::<bool, FilterError>(t == Truth::True),
                Err(e) => Err(e),
            },
    {
        proof {
            use_type_invariant(self);
        }
        match self.expression.evaluate(event, latency_ns) {
            Ok(t) => Ok(t == Truth::True),
            Err(e) => Err(e),
        }
    }

    pub fn needs_latency(&self) -> (r: bool)
        ensures
            r == formula_needs_latency(self.formula()),
    {
        self.expression.needs_latency()
    }

    /// Only predicates that are necessary for the whole expression, and whose
    /// fields cannot change between submission and completion, are safe to
    /// reject in the kernel. `bus 1 or payload contains ...` has no bus prefilter.
    pub fn kernel_predicates(&self) -> (r: Vec<KernelPredicate>)
        ensures
            r@ == kernel_predicates_of(self.formula()),
    {
        let required = self.expression.required(false);
        let mut out: Vec<KernelPredicate> = Vec::new();
        let mut i: usize = 0;
        while i < required.len()
            invariant
                i <= required@.len(),
                out@ == kernel_list(required@.take(i as int)),
            decreases required@.len() - i,
        {
            let p = required[i];
            let code: Option<u32> = match p.field {
                Field::Bus => Some(1),
                Field::Device => Some(2),
                Field::Vid => Some(3),
                Field::Pid => Some(4),
                Field::Endpoint => Some(5),
                Field::EpNum => Some(6),
                Field::Direction => Some(7),
                Field::Transfer => Some(8),
                Field::Requested => Some(9),
                Field::Frames => Some(10),
                _ => None,
            };
            proof {
                assert(required@.take(i + 1).drop_last() =~= required@.take(i as int));
            }
            if let Some(field) = code {
                if 0 <= p.value && p.value <= u64::MAX as i128 {
                    out.push(
                        KernelPredicate {
                            field,
                            comparison: p.comparison.code(),
                            value: p.value as u64,
                            mask: match p.mask {
                                Some(m) => m,
                                None => u64::MAX,
                            },
                        },
                    );
                }
            }
            i = i + 1;
        }
        proof {
            assert(required@.take(required@.len() as int) =~= required@);
        }
        if out.len() > MAX_KERNEL_PREDICATES as usize {
            out.truncate(MAX_KERNEL_PREDICATES as usize);
        }
        out
    }
}

impl Expr {
    pub fn needs_latency(&self) -> (r: bool)
        ensures
            r == formula_needs_latency(self.formula()),
        decreases self,
    {
        match self {
            Expr::Predicate(p) => p.field == Field::Latency,
            Expr::Not(inner) => inner.needs_latency(),
            Expr::And(a, b) => a.needs_latency() || b.needs_latency(),
            Expr::Or(a, b) => a.needs_latency() || b.needs_latency(),
            _ => false,
        }
    }

    pub fn required(&self, negated: bool) -> (r: Vec<Predicate>)
        ensures
            r@ == required(self.formula(), negated),
        decreases self,
    {
        match self {
            Expr::Predicate(p) => {
                let mut p = *p;
                if negated {
                    p.comparison = p.comparison.invert();
                }
                let mut v = Vec::new();
                v.push(p);
                proof {
                    assert(v@ =~= seq![oriented(self.formula()->Predicate_0, negated)]);
                }
                v
            },
            Expr::Not(inner) => inner.required(!negated),
            Expr::And(a, b) => {
                let left = a.required(negated);
                let right = b.required(negated);
                if !negated {
                    union_into(left, &right)
                } else {
                    intersect(&left, &right)
                }
            },
            Expr::Or(a, b) => {
                let left = a.required(negated);
                let right = b.required(negated);
                if negated {
                    union_into(left, &right)
                } else {
                    intersect(&left, &right)
                }
            },
            _ => Vec::new(),
        }
    }

    pub fn evaluate(&self, event: &Event, latency: Option<u64>) -> (r: Result<Truth, FilterError>)
        requires
            well_formed(self.formula()),
        ensures
            r == eval(self.formula(), event, latency),
        decreases self,
    {
        match self {
            Expr::All => Ok(Truth::True),
            Expr::Not(inner) => match inner.evaluate(event, latency) {
                Ok(t) => Ok(t.not()),
                Err(e) => Err(e),
            },
            Expr::And(a, b) => {
                let a = match a.evaluate(event, latency) {
                    Ok(t) => t,
                    Err(e) => return Err(e),
                };
                if a == Truth::False {
                    Ok(a)
                } else {
                    match b.evaluate(event, latency) {
                        Ok(t) => Ok(a.and(t)),
                        Err(e) => Err(e),
                    }
                }
            },
            Expr::Or(a, b) => {
                let a = match a.evaluate(event, latency) {
                    Ok(t) => t,
                    Err(e) => return Err(e),
                };
                if a == Truth::True {
                    Ok(a)
                } else {
                    match b.evaluate(event, latency) {
                        Ok(t) => Ok(a.or(t)),
                        Err(e) => Err(e),
                    }
                }
            },
            Expr::Predicate(p) => {
                match value(p.field, event, latency) {
                    Err(e) => Err(e),
                    Ok(None) => Ok(Truth::Unknown),
                    Ok(Some(v)) => {
                        let v = match p.mask {
                            Some(mask) => (low_bits(v) & mask) as i128,
                            None => v,
                        };
                        Ok(Truth::from_bool(p.comparison.matches(v, p.value)))
                    },
                }
            },
            Expr::Contains(needle) => {
                if event.meta.has_data == 0 {
                    Ok(Truth::Unknown)
                } else {
                    match contains(event, needle.as_slice()) {
                        Ok(b) => Ok(Truth::from_bool(b)),
                        Err(e) => Err(e),
                    }
                }
            },
        }
    }
}

/// `left` with the members of `right` it does not already hold appended.
fn union_into(left: Vec<Predicate>, right: &Vec<Predicate>) -> (r: Vec<Predicate>)
    ensures
        r@ == union(left@, right@),
{
    let mut result = left;
    let mut i: usize = 0;
    while i < right.len()
        invariant
            i <= right@.len(),
            result@ == union(left@, right@.take(i as int)),
        decreases right@.len() - i,
    {
        let p = right[i];
        proof {
            assert(right@.take(i + 1).drop_last() =~= right@.take(i as int));
        }
        if !vec_contains(&result, &p) {
            result.push(p);
        }
        i = i + 1;
    }
    proof {
        assert(right@.take(right@.len() as int) =~= right@);
    }
    result
}

/// The members of `left` that `right` also holds.
fn intersect(left: &Vec<Predicate>, right: &Vec<Predicate>) -> (r: Vec<Predicate>)
    ensures
        r@ == intersection(left@, right@),
{
    let mut result: Vec<Predicate> = Vec::new();
    let mut i: usize = 0;
    while i < left.len()
        invariant
            i <= left@.len(),
            result@ == left@.take(i as int).filter(|p: Predicate| right@.contains(p)),
        decreases left@.len() - i,
    {
        let p = left[i];
        proof {
            let f = |p: Predicate| right@.contains(p);
            assert(left@.take(i + 1).drop_last() =~= left@.take(i as int));
            reveal_with_fuel(Seq::<_>::filter, 1);
        }
        if vec_contains(right, &p) {
            result.push(p);
        }
        i = i + 1;
    }
    proof {
        assert(left@.take(left@.len() as int) =~= left@);
    }
    result
}

fn vec_contains(v: &Vec<Predicate>, p: &Predicate) -> (r: bool)
    ensures
        r == v@.contains(*p),
{
    let mut i: usize = 0;
    while i < v.len()
        invariant
            i <= v@.len(),
            forall|j: int| 0 <= j < i ==> v@[j] != *p,
        decreases v@.len() - i,
    {
        if v[i] == *p {
            assert(v@[i as int] == *p);
            return true;
        }
        i = i + 1;
    }
    false
}

/// `v as u64` for the values fields take.
fn low_bits(v: i128) -> (r: u64)
    requires
        -0x1_0000_0000_0000_0000 <= v < 0x1_0000_0000_0000_0000,
    ensures
        r == low64(v as int),
{
    if v >= 0 {
        v as u64
    } else {
        (v + 0x1_0000_0000_0000_0000) as u64
    }
}

/// Value of a field for an event; see `field_value`.
fn value(field: Field, event: &Event, latency: Option<u64>) -> (r: Result<Option<i128>, FilterError>)
    requires
        width_valid(field),
    ensures
        match r {
            Ok(Some(v)) => field_value(field, event, latency) == Ok::<Option<int>, FilterError>(Some(v as int))
                && i32::MIN <= v <= u64::MAX,
            Ok(None) => field_value(field, event, latency) == Ok::<Option<int>, FilterError>(None),
            Err(e) => field_value(field, event, latency) == Err::<Option<int>, FilterError>(e),
        },
{
    if (field == Field::Vid || field == Field::Pid) && !event.identity_known || field
        == Field::Requested && !event.requested_known {
        return Ok(None);
    }
    let m = &event.meta;
    let v: i128 = match field {
        Field::Bus => m.bus as i128,
        Field::Device => m.device as i128,
        Field::Vid => m.vid as i128,
        Field::Pid => m.pid as i128,
        Field::Endpoint => m.endpoint as i128,
        Field::EpNum => {
            let e = m.endpoint;
            assert(e & 15 == e % 16) by (bit_vector);
            (e & 15) as i128
        },
        Field::Direction => {
            let e = m.endpoint;
            assert(e >> 7 == e / 128) by (bit_vector);
            (e >> 7) as i128
        },
        Field::Transfer => m.transfer_type as i128,
        Field::Requested => m.requested_len as i128,
        Field::Actual => {
            if m.event_type == 0x53 {
                return Ok(None);
            }
            m.actual_len as i128
        },
        Field::Length => if m.event_type == 0x53 {
            m.requested_len as i128
        } else {
            m.actual_len as i128
        },
        Field::Captured => m.payload_len as i128,
        Field::Frames => m.iso_count as i128,
        Field::Status => m.status as i128,
        Field::Event => m.event_type as i128,
        Field::Interval => m.interval as i128,
        Field::StartFrame => m.start_frame as i128,
        Field::Errors => m.error_count as i128,
        Field::UrbId => m.urb_id as i128,
        Field::Latency => {
            return match latency {
                Some(l) => Ok(Some(l as i128)),
                None => Ok(None),
            };
        },
        Field::Request | Field::RequestType | Field::Value | Field::Index | Field::SetupLength => {
            if m.setup_present == 0 {
                return Ok(None);
            }
            match field {
                Field::Request => m.setup[1] as i128,
                Field::RequestType => m.setup[0] as i128,
                Field::Value => m.setup[2] as i128 + 256 * m.setup[3] as i128,
                Field::Index => m.setup[4] as i128 + 256 * m.setup[5] as i128,
                _ => m.setup[6] as i128 + 256 * m.setup[7] as i128,
            }
        },
        Field::Payload(offset, size) => {
            let end = match offset.checked_add(size as u64) {
                Some(end) => end,
                None => return Ok(None),
            };
            if m.has_data == 0 || end > m.payload_len as u64 {
                return Ok(None);
            }
            // ISO padding is not captured data and must not satisfy byte filters.
            if m.transfer_type == 0 && !in_some_frame(&event.iso, offset, end) {
                return Ok(None);
            }
            if end > event.payload.len() as u64 {
                return Err(FilterError::PayloadUnavailable);
            }
            be_at(event.payload.as_slice(), offset as usize, size as usize) as i128
        },
    };
    Ok(Some(v))
}

/// Searches the payload for `needle`, range by range, with one prefix table; see
/// `search_from`.
fn contains(event: &Event, needle: &[u8]) -> (r: Result<bool, FilterError>)
    requires
        needle@.len() > 0,
    ensures
        r == search_from(needle@, event.payload@, search_ranges(event), 0),
{
    let iso = event.meta.transfer_type == 0;
    let count: usize = if iso {
        event.iso.len()
    } else {
        1
    };
    let ghost ranges = search_ranges(event);
    assert(ranges.len() == count);
    let table = prefix_table(needle);
    let mut i: usize = 0;
    while i < count
        invariant
            i <= count == ranges.len(),
            prefix_table_of(needle@, table@),
            ranges == search_ranges(event),
            iso == (event.meta.transfer_type == 0),
            needle@.len() > 0,
            search_from(needle@, event.payload@, ranges, 0) == search_from(
                needle@,
                event.payload@,
                ranges,
                i as int,
            ),
        decreases count - i,
    {
        let (offset, length): (u64, u64) = if iso {
            (event.iso[i].offset as u64, event.iso[i].length as u64)
        } else {
            (0, event.meta.payload_len as u64)
        };
        assert(ranges[i as int] == (offset as int, length as int));
        let available = event.payload.len() as u64;
        let readable: u64 = if offset + length <= available {
            length
        } else if offset >= available {
            0
        } else {
            (available - offset) / SEARCH_BLOCK * SEARCH_BLOCK
        };
        assert(readable == readable_len(event.payload@.len() as int, offset as int, length as int));
        if readable > 0 && occurs_in(
            event.payload.as_slice(),
            offset as usize,
            readable as usize,
            needle,
            &table,
        ) {
            return Ok(true);
        }
        if readable < length {
            return Err(FilterError::PayloadUnavailable);
        }
        i = i + 1;
    }
    Ok(false)
}

fn in_some_frame(iso: &Vec<IsoDescriptor>, offset: u64, end: u64) -> (r: bool)
    ensures
        r == inside_frame(iso@, offset as int, end as int),
{
    let mut i: usize = 0;
    while i < iso.len()
        invariant
            i <= iso@.len(),
            forall|j: int|
                0 <= j < i ==> !(offset >= iso@[j].offset && end <= iso@[j].offset as int
                    + iso@[j].length as int),
        decreases iso@.len() - i,
    {
        let d = iso[i];
        if offset >= d.offset as u64 && end <= d.offset as u64 + d.length as u64 {
            return true;
        }
        i = i + 1;
    }
    false
}

proof fn lemma_union_member(left: Seq<Predicate>, right: Seq<Predicate>, x: Predicate)
    requires
        union(left, right).contains(x),
    ensures
        left.contains(x) || right.contains(x),
    decreases right.len(),
{
    if right.len() > 0 {
        let l = union(left, right.drop_last());
        if l.contains(x) {
            lemma_union_member(left, right.drop_last(), x);
            if right.drop_last().contains(x) {
                let j = choose|j: int| 0 <= j < right.drop_last().len() && right.drop_last()[j] == x;
                assert(right[j] == x);
            }
        } else {
            assert(l.push(right.last()).contains(x));
            let j = choose|j: int| 0 <= j < l.push(right.last()).len() && l.push(right.last())[j] == x;
            if j < l.len() {
                assert(l[j] == x);
            }
            assert(right[right.len() - 1] == x);
        }
    }
}

proof fn lemma_intersection_member(left: Seq<Predicate>, right: Seq<Predicate>, x: Predicate)
    requires
        intersection(left, right).contains(x),
    ensures
        left.contains(x) && right.contains(x),
{
    let f = |p: Predicate| right.contains(p);
    left.lemma_filter_contains_rev(f, x);
    let j = choose|j: int| 0 <= j < left.filter(f).len() && left.filter(f)[j] == x;
    left.lemma_filter_pred(f, j);
}

proof fn lemma_oriented_sound(p: Predicate, negated: bool, e: &Event, latency: Option<u64>)
    requires
        predicate_truth(p, e, latency) == Ok::<Truth, FilterError>(
            if negated {
                Truth::False
            } else {
                Truth::True
            },
        ),
    ensures
        predicate_truth(oriented(p, negated), e, latency) == Ok::<Truth, FilterError>(Truth::True),
{
    if negated {
        let v = field_value(p.field, e, latency)->Ok_0->0;
        let vm = match p.mask {
            Some(mask) => (low64(v) & mask) as int,
            None => v,
        };
        law_invert_negates(p.comparison, vm, p.value as int);
        assert(oriented(p, negated).field == p.field);
        assert(oriented(p, negated).mask == p.mask);
    }
}

/// The predicates `Expr::required` collects are necessary: each holds for every
/// event that the formula selects, and, with `negated`, for every event that the
/// formula rejects.
pub proof fn law_required_are_necessary(f: Formula, negated: bool, e: &Event, latency: Option<u64>)
    requires
        eval(f, e, latency) == Ok::<Truth, FilterError>(
            if negated {
                Truth::False
            } else {
                Truth::True
            },
        ),
    ensures
        forall|p: Predicate| #[trigger]
            required(f, negated).contains(p) ==> predicate_truth(p, e, latency) == Ok::<
                Truth,
                FilterError,
            >(Truth::True),
{
    lemma_required_sound(f, negated, e, latency);
}

/// Every predicate `required` collects holds for an event that the formula
/// selects (rejects, when `negated`).
proof fn lemma_required_sound(f: Formula, negated: bool, e: &Event, latency: Option<u64>)
    requires
        eval(f, e, latency) == Ok::<Truth, FilterError>(
            if negated {
                Truth::False
            } else {
                Truth::True
            },
        ),
    ensures
        forall|p: Predicate| #[trigger]
            required(f, negated).contains(p) ==> predicate_truth(p, e, latency) == Ok::<
                Truth,
                FilterError,
            >(Truth::True),
    decreases f,
{
    match f {
        Formula::Predicate(p) => {
            lemma_oriented_sound(p, negated, e, latency);
            assert(required(f, negated) == seq![oriented(p, negated)]);
            assert forall|q: Predicate| #[trigger]
                required(f, negated).contains(q) implies predicate_truth(q, e, latency) == Ok::<
                Truth,
                FilterError,
            >(Truth::True) by {
                assert(required(f, negated)[0] == q);
            }
        },
        Formula::Not(a) => {
            lemma_required_sound(*a, !negated, e, latency);
            assert(required(f, negated) == required(*a, !negated));
            assert(eval(*a, e, latency) == Ok::<Truth, FilterError>(
                if !negated {
                    Truth::False
                } else {
                    Truth::True
                },
            ));
        },
        Formula::And(a, b) => {
            if !negated {
                lemma_required_sound(*a, negated, e, latency);
                lemma_required_sound(*b, negated, e, latency);
                assert forall|q: Predicate| #[trigger]
                    required(f, negated).contains(q) implies predicate_truth(q, e, latency)
                    == Ok::<Truth, FilterError>(Truth::True) by {
                    lemma_union_member(required(*a, negated), required(*b, negated), q);
                }
            } else {
                assert forall|q: Predicate| #[trigger]
                    required(f, negated).contains(q) implies predicate_truth(q, e, latency)
                    == Ok::<Truth, FilterError>(Truth::True) by {
                    lemma_intersection_member(required(*a, negated), required(*b, negated), q);
                    if eval(*a, e, latency) == Ok::<Truth, FilterError>(Truth::False) {
                        lemma_required_sound(*a, negated, e, latency);
                    } else {
                        lemma_required_sound(*b, negated, e, latency);
                    }
                }
            }
        },
        Formula::Or(a, b) => {
            if negated {
                lemma_required_sound(*a, negated, e, latency);
                lemma_required_sound(*b, negated, e, latency);
                assert forall|q: Predicate| #[trigger]
                    required(f, negated).contains(q) implies predicate_truth(q, e, latency)
                    == Ok::<Truth, FilterError>(Truth::True) by {
                    lemma_union_member(required(*a, negated), required(*b, negated), q);
                }
            } else {
                assert forall|q: Predicate| #[trigger]
                    required(f, negated).contains(q) implies predicate_truth(q, e, latency)
                    == Ok::<Truth, FilterError>(Truth::True) by {
                    lemma_intersection_member(required(*a, negated), required(*b, negated), q);
                    if eval(*a, e, latency) == Ok::<Truth, FilterError>(Truth::True) {
                        lemma_required_sound(*a, negated, e, latency);
                    } else {
                        lemma_required_sound(*b, negated, e, latency);
                    }
                }
            }
        },
        _ => {
            assert(required(f, negated) =~= Seq::<Predicate>::empty());
        },
    }
}

proof fn lemma_kernel_list_member(ps: Seq<Predicate>, k: KernelPredicate)
    requires
        kernel_list(ps).contains(k),
    ensures
        exists|p: Predicate| #[trigger] ps.contains(p) && to_kernel(p) == Some(k),
    decreases ps.len(),
{
    if ps.len() > 0 {
        let rest = kernel_list(ps.drop_last());
        if rest.contains(k) {
            lemma_kernel_list_member(ps.drop_last(), k);
            let p = choose|p: Predicate| #[trigger] ps.drop_last().contains(p) && to_kernel(p) == Some(k);
            let j = choose|j: int| 0 <= j < ps.drop_last().len() && ps.drop_last()[j] == p;
            assert(ps[j] == p);
            assert(ps.contains(p));
        } else {
            let l = ps.last();
            let r = rest.push(to_kernel(l)->0);
            let j = choose|j: int| 0 <= j < r.len() && r[j] == k;
            if j < rest.len() {
                assert(rest[j] == k);
            }
            assert(to_kernel(l) == Some(k));
            assert(ps[ps.len() - 1] == l);
            assert(ps.contains(l));
        }
    }
}

proof fn lemma_kernel_compare(c: Compare, a: u64, b: u64)
    ensures
        kernel_compare(c.spec_code(), a, b) == c.holds(a as int, b as int),
{
}

/// A true predicate on a kernel-visible field is accepted, in its kernel form, by
/// any metadata that agrees on that field.
proof fn lemma_to_kernel_accepts(p: Predicate, e: &Event, latency: Option<u64>, submit: EventMeta)
    requires
        predicate_truth(p, e, latency) == Ok::<Truth, FilterError>(Truth::True),
        to_kernel(p) is Some,
        submit.bus == e.meta.bus,
        submit.device == e.meta.device,
        submit.vid == e.meta.vid,
        submit.pid == e.meta.pid,
        submit.endpoint == e.meta.endpoint,
        submit.transfer_type == e.meta.transfer_type,
        submit.requested_len == e.meta.requested_len,
        submit.iso_count == e.meta.iso_count,
    ensures
        to_kernel(p)->0.accepts(submit),
{
    let k = to_kernel(p)->0;
    let v = field_value(p.field, e, latency)->Ok_0->0;
    let kv = kernel_field(k.field, submit)->0;
    assert(kv == v);
    lemma_kernel_compare(p.comparison, kv & k.mask, k.value);
    match p.mask {
        Some(m) => {
            assert(low64(v) == kv);
        },
        None => {
            assert(kv & 0xffff_ffff_ffff_ffffu64 == kv) by (bit_vector);
        },
    }
}

/// Kernel prefilters never reject the submission of a selected event: when the
/// filter is true for an event, every predicate pushed into the kernel accepts any
/// metadata that agrees with the event on the fields that do not change between
/// submission and completion.
pub proof fn law_kernel_predicates_never_reject(
    f: Formula,
    e: &Event,
    latency: Option<u64>,
    submit: EventMeta,
)
    requires
        eval(f, e, latency) == Ok::<Truth, FilterError>(Truth::True),
        submit.bus == e.meta.bus,
        submit.device == e.meta.device,
        submit.vid == e.meta.vid,
        submit.pid == e.meta.pid,
        submit.endpoint == e.meta.endpoint,
        submit.transfer_type == e.meta.transfer_type,
        submit.requested_len == e.meta.requested_len,
        submit.iso_count == e.meta.iso_count,
    ensures
        forall|i: int|
            0 <= i < kernel_predicates_of(f).len() ==> #[trigger] kernel_predicates_of(f)[i].accepts(
                submit,
            ),
{
    lemma_required_sound(f, false, e, latency);
    let all = kernel_list(required(f, false));
    assert forall|i: int| 0 <= i < kernel_predicates_of(f).len() implies #[trigger] kernel_predicates_of(
        f,
    )[i].accepts(submit) by {
        let k = kernel_predicates_of(f)[i];
        assert(all[i] == k);
        assert(all.contains(k));
        lemma_kernel_list_member(required(f, false), k);
        let p = choose|p: Predicate| #[trigger] required(f, false).contains(p) && to_kernel(p) == Some(k);
        lemma_to_kernel_accepts(p, e, latency, submit);
    }
}

} // verus!

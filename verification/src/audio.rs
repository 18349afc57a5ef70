//! Per-endpoint statistics of isochronous completions. URB completion timing is a
//! software observation, not USB wire timing.
use crate::archive::Event;
use crate::wire::IsoDescriptor;
use std::collections::BTreeMap;
use vstd::prelude::*;

verus! {

/// An ISO endpoint: capture source, bus, device address, endpoint address.
pub type EndpointKey = (u64, u16, u8, u8);

/// Counts for one endpoint.
#[derive(Clone, Copy, Debug, PartialEq, Eq, Structural)]
pub struct IsoEndpoint {
    pub urbs: u64,
    pub frames: u64,
    pub bytes: u64,
    pub frame_errors: u64,
    pub urb_errors: u64,
    pub empty_frames: u64,
    pub previous_ns: Option<u64>,
    pub max_gap_ns: u64,
}

/// Whether `a` sorts before `b`, field by field.
pub open spec fn key_lt(a: EndpointKey, b: EndpointKey) -> bool {
    a.0 < b.0 || (a.0 == b.0 && (a.1 < b.1 || (a.1 == b.1 && (a.2 < b.2 || (a.2 == b.2 && a.3
        < b.3)))))
}

pub open spec fn no_counts() -> IsoEndpoint {
    IsoEndpoint {
        urbs: 0,
        frames: 0,
        bytes: 0,
        frame_errors: 0,
        urb_errors: 0,
        empty_frames: 0,
        previous_ns: None,
        max_gap_ns: 0,
    }
}

/// Bytes in all frames.
pub open spec fn frame_bytes(iso: Seq<IsoDescriptor>) -> nat
    decreases iso.len(),
{
    if iso.len() == 0 {
        0
    } else {
        frame_bytes(iso.drop_last()) + iso.last().length as nat
    }
}

/// Frame counts add up frame by frame: every frame's length counts towards the
/// bytes whatever its status, a frame counts as an error exactly when its status is
/// not zero, and as empty exactly when its length is zero. No frames count
/// nothing, and the frames of two runs count what each run counts.
pub proof fn law_frame_counts_add_up(a: Seq<IsoDescriptor>, b: Seq<IsoDescriptor>, d: IsoDescriptor)
    ensures
        frame_bytes(Seq::<IsoDescriptor>::empty()) == 0,
        bad_frames(Seq::<IsoDescriptor>::empty()) == 0,
        empty_frames(Seq::<IsoDescriptor>::empty()) == 0,
        frame_bytes(seq![d]) == d.length as nat,
        bad_frames(seq![d]) == (if d.status != 0 {
            1nat
        } else {
            0nat
        }),
        empty_frames(seq![d]) == (if d.length == 0 {
            1nat
        } else {
            0nat
        }),
        frame_bytes(a + b) == frame_bytes(a) + frame_bytes(b),
        bad_frames(a + b) == bad_frames(a) + bad_frames(b),
        empty_frames(a + b) == empty_frames(a) + empty_frames(b),
    decreases b.len(),
{
    assert(seq![d].drop_last() =~= Seq::<IsoDescriptor>::empty());
    if b.len() > 0 {
        law_frame_counts_add_up(a, b.drop_last(), d);
        assert((a + b).drop_last() =~= a + b.drop_last());
        assert((a + b).last() == b.last());
    } else {
        assert(a + b =~= a);
    }
}

/// Frames with an error status.
pub open spec fn bad_frames(iso: Seq<IsoDescriptor>) -> nat
    decreases iso.len(),
{
    if iso.len() == 0 {
        0
    } else {
        bad_frames(iso.drop_last()) + if iso.last().status != 0 {
            1nat
        } else {
            0nat
        }
    }
}

/// Frames that carried no data.
pub open spec fn empty_frames(iso: Seq<IsoDescriptor>) -> nat
    decreases iso.len(),
{
    if iso.len() == 0 {
        0
    } else {
        empty_frames(iso.drop_last()) + if iso.last().length == 0 {
            1nat
        } else {
            0nat
        }
    }
}

/// Whether an event is an ISO completion, the only kind counted.
pub open spec fn counted(e: Event) -> bool {
    e.meta.transfer_type == 0 && e.meta.event_type == 0x43
}

pub open spec fn key_of(e: Event) -> EndpointKey {
    (e.source_id, e.meta.bus, e.meta.device, e.meta.endpoint)
}

/// The counts once a completion has been added.
pub open spec fn tally(c: IsoEndpoint, e: Event) -> IsoEndpoint {
    let now = e.meta.timestamp_ns;
    IsoEndpoint {
        urbs: (c.urbs + 1) as u64,
        urb_errors: (c.urb_errors + if e.meta.status != 0 {
            1int
        } else {
            0int
        }) as u64,
        frames: (c.frames + e.iso@.len()) as u64,
        bytes: (c.bytes + frame_bytes(e.iso@)) as u64,
        frame_errors: (c.frame_errors + bad_frames(e.iso@)) as u64,
        empty_frames: (c.empty_frames + empty_frames(e.iso@)) as u64,
        previous_ns: Some(now),
        max_gap_ns: match c.previous_ns {
            None => c.max_gap_ns,
            Some(p) => {
                let gap = if now >= p {
                    (now - p) as u64
                } else {
                    0u64
                };
                if gap > c.max_gap_ns {
                    gap
                } else {
                    c.max_gap_ns
                }
            },
        },
    }
}

/// Whether adding a completion keeps every count within `u64`.
pub open spec fn fits(c: IsoEndpoint, e: Event) -> bool {
    &&& c.urbs < u64::MAX
    &&& c.urb_errors < u64::MAX
    &&& c.frames + e.iso@.len() <= u64::MAX
    &&& c.bytes + frame_bytes(e.iso@) <= u64::MAX
    &&& c.frame_errors + e.iso@.len() <= u64::MAX
    &&& c.empty_frames + e.iso@.len() <= u64::MAX
}

proof fn lemma_frame_counts(iso: Seq<IsoDescriptor>)
    ensures
        bad_frames(iso) <= iso.len(),
        empty_frames(iso) <= iso.len(),
    decreases iso.len(),
{
    if iso.len() > 0 {
        lemma_frame_counts(iso.drop_last());
    }
}

/// Entries are in increasing key order, so no key occurs twice.
pub open spec fn sorted(s: Seq<(EndpointKey, IsoEndpoint)>) -> bool {
    forall|i: int, j: int| 0 <= i < j < s.len() ==> key_lt(#[trigger] s[i].0, #[trigger] s[j].0)
}

pub open spec fn has_key(s: Seq<(EndpointKey, IsoEndpoint)>, k: EndpointKey) -> bool {
    exists|i: int| 0 <= i < s.len() && #[trigger] s[i].0 == k
}

/// Endpoint keys compare as std orders tuples of integers, so the map's
/// specifications apply to them.
proof fn lemma_keys_ordered()
    ensures
        vstd::laws_cmp::obeys_cmp::<EndpointKey>(),
        vstd::std_specs::btree::key_obeys_cmp_spec::<EndpointKey>(),
{
    broadcast use vstd::laws_cmp::group_laws_cmp;
    broadcast use vstd::std_specs::btree::group_btree_axioms;

}

/// Keys that std orders increasingly are in increasing [`key_lt`] order.
proof fn lemma_increasing_keys(s: Seq<EndpointKey>)
    requires
        vstd::std_specs::btree::increasing_seq(s),
    ensures
        forall|i: int, j: int| 0 <= i < j < s.len() ==> key_lt(#[trigger] s[i], #[trigger] s[j]),
{
    broadcast use vstd::laws_cmp::group_laws_cmp;
    broadcast use vstd::std_specs::btree::group_btree_axioms;

    assert forall|i: int, j: int| 0 <= i < j < s.len() implies key_lt(
        #[trigger] s[i],
        #[trigger] s[j],
    ) by {
        assert(vstd::std_specs::cmp::OrdSpec::cmp_spec(&s[i], &s[j]) is Less);
    }
}

/// Statistics of isochronous completions, per endpoint.
#[derive(Debug)]
pub struct IsoStats {
    entries: BTreeMap<EndpointKey, IsoEndpoint>,
}

impl IsoStats {
    /// The counts of each endpoint seen.
    pub closed spec fn view(&self) -> Map<EndpointKey, IsoEndpoint> {
        self.entries@
    }

    pub fn new() -> (r: Self)
        ensures
            r.view() == Map::<EndpointKey, IsoEndpoint>::empty(),
    {
        IsoStats { entries: BTreeMap::new() }
    }

    /// Adds an ISO completion to its endpoint's counts; other events are ignored.
    pub fn observe(&mut self, event: &Event)
        requires
            counted(*event) ==> fits(
                if old(self).view().contains_key(key_of(*event)) {
                    old(self).view()[key_of(*event)]
                } else {
                    no_counts()
                },
                *event,
            ),
        ensures
            final(self).view() == if counted(*event) {
                old(self).view().insert(
                    key_of(*event),
                    tally(
                        if old(self).view().contains_key(key_of(*event)) {
                            old(self).view()[key_of(*event)]
                        } else {
                            no_counts()
                        },
                        *event,
                    ),
                )
            } else {
                old(self).view()
            },
    {
        broadcast use vstd::std_specs::btree::group_btree_axioms;

        let m = &event.meta;
        if m.transfer_type != 0 || m.event_type != 0x43 {
            return;
        }
        let key: EndpointKey = (event.source_id, m.bus, m.device, m.endpoint);
        proof {
            lemma_keys_ordered();
            lemma_frame_counts(event.iso@);
        }
        let current = match self.entries.get(&key) {
            Some(c) => *c,
            None => IsoEndpoint {
                urbs: 0,
                frames: 0,
                bytes: 0,
                frame_errors: 0,
                urb_errors: 0,
                empty_frames: 0,
                previous_ns: None,
                max_gap_ns: 0,
            },
        };
        let updated = tally_of(current, event);
        self.entries.insert(key, updated);
    }

    /// The endpoints seen, in increasing key order, with their counts.
    pub fn report(&self) -> (r: Vec<(EndpointKey, IsoEndpoint)>)
        ensures
            sorted(r@),
            forall|k: EndpointKey| #[trigger] has_key(r@, k) == self.view().contains_key(k),
            forall|i: int| 0 <= i < r@.len() ==> self.view()[#[trigger] r@[i].0] == r@[i].1,
    {
        broadcast use vstd::std_specs::btree::group_btree_axioms;

        proof {
            lemma_keys_ordered();
        }
        let ghost v = vstd::std_specs::iter::IteratorSpec::remaining(
            &vstd::std_specs::btree::spec_btree_map_iter(&self.entries),
        );
        let mut out: Vec<(EndpointKey, IsoEndpoint)> = Vec::new();
        for kv in it: self.entries.iter()
            invariant
                it.seq() == v,
                out@.len() == it.index(),
                forall|i: int|
                    0 <= i < out@.len() ==> #[trigger] out@[i] == (*v[i].0, *v[i].1),
        {
            out.push((*kv.0, *kv.1));
        }
        proof {
            let ks = v.map_values(|kv: (&EndpointKey, &IsoEndpoint)| *kv.0);
            lemma_increasing_keys(ks);
            assert forall|i: int, j: int| 0 <= i < j < out@.len() implies key_lt(
                #[trigger] out@[i].0,
                #[trigger] out@[j].0,
            ) by {
                assert(ks[i] == out@[i].0 && ks[j] == out@[j].0);
            }
            assert forall|k: EndpointKey| #[trigger]
                has_key(out@, k) == self.view().contains_key(k) by {
                if self.view().contains_key(k) {
                    assert(v.contains((&k, &self.entries@[k])));
                    let i = choose|i: int| 0 <= i < v.len() && v[i] == (&k, &self.entries@[k]);
                    assert(out@[i].0 == k);
                }
                if has_key(out@, k) {
                    let i = choose|i: int| 0 <= i < out@.len() && #[trigger] out@[i].0 == k;
                    assert(self.entries@.contains_key(*v[i].0));
                }
            }
        }
        out
    }
}

/// Sum of frame lengths, errors and empty frames of the descriptors.
fn frame_totals(iso: &Vec<IsoDescriptor>) -> (r: (u64, u64, u64))
    requires
        frame_bytes(iso@) <= u64::MAX,
    ensures
        r.0 == frame_bytes(iso@),
        r.1 == bad_frames(iso@),
        r.2 == empty_frames(iso@),
{
    let mut bytes: u64 = 0;
    let mut bad: u64 = 0;
    let mut empty: u64 = 0;
    let mut k: usize = 0;
    assert(iso@.take(0) =~= Seq::<IsoDescriptor>::empty());
    while k < iso.len()
        invariant
            k <= iso@.len(),
            frame_bytes(iso@) <= u64::MAX,
            bytes == frame_bytes(iso@.take(k as int)),
            bad == bad_frames(iso@.take(k as int)),
            empty == empty_frames(iso@.take(k as int)),
            bad <= k,
            empty <= k,
        decreases iso@.len() - k,
    {
        let d = iso[k];
        proof {
            assert(iso@.take(k + 1).drop_last() =~= iso@.take(k as int));
            lemma_frame_bytes_prefix(iso@, k + 1);
        }
        bytes = bytes + d.length as u64;
        if d.status != 0 {
            bad = bad + 1;
        }
        if d.length == 0 {
            empty = empty + 1;
        }
        k = k + 1;
    }
    assert(iso@.take(iso@.len() as int) =~= iso@);
    (bytes, bad, empty)
}

proof fn lemma_frame_bytes_prefix(iso: Seq<IsoDescriptor>, k: int)
    requires
        0 <= k <= iso.len(),
    ensures
        frame_bytes(iso.take(k)) <= frame_bytes(iso),
    decreases iso.len() - k,
{
    if k < iso.len() {
        lemma_frame_bytes_prefix(iso, k + 1);
        assert(iso.take(k + 1).drop_last() =~= iso.take(k));
    } else {
        assert(iso.take(k) =~= iso);
    }
}

/// The counts once a completion has been added (see [`tally`]).
fn tally_of(c: IsoEndpoint, event: &Event) -> (r: IsoEndpoint)
    requires
        fits(c, *event),
        bad_frames(event.iso@) <= event.iso@.len(),
        empty_frames(event.iso@) <= event.iso@.len(),
    ensures
        r == tally(c, *event),
{
    let now = event.meta.timestamp_ns;
    let (bytes, bad, empty) = frame_totals(&event.iso);
    let n = event.iso.len() as u64;
    IsoEndpoint {
        urbs: c.urbs + 1,
        urb_errors: c.urb_errors + if event.meta.status != 0 {
            1
        } else {
            0
        },
        frames: c.frames + n,
        bytes: c.bytes + bytes,
        frame_errors: c.frame_errors + bad,
        empty_frames: c.empty_frames + empty,
        previous_ns: Some(now),
        max_gap_ns: match c.previous_ns {
            None => c.max_gap_ns,
            Some(p) => {
                let gap = now.saturating_sub(p);
                if gap > c.max_gap_ns {
                    gap
                } else {
                    c.max_gap_ns
                }
            },
        },
    }
}

} // verus!

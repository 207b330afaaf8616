//! Time zones: a table of UTC transitions (the UTC zone and zones read from
//! TZif data), or a host-supplied offset lookup.
//!
//! A zone answers the two questions evaluation needs:
//!
//! 1. the UTC offset in effect at a given instant (used to derive local
//!    calendar fields), and
//! 2. the instant a local wall-clock time resolves to under Temporal's
//!    `compatible` disambiguation (used only for `H`/`m`-period cadence
//!    anchors).

use vstd::prelude::*;

use crate::arith::floor_div;
use crate::civil::MS_PER_SEC;
use crate::error::UnknownTimeZone;
use crate::text::{contains_dot_dot, has_dot_dot, starts_with_char, str_eq};

verus! {

/// Largest instant magnitude (ms since the epoch) a zone resolves.
pub const MAX_LOCAL_MS: i64 = 8_000_100_000_000_000_000;

/// A host-supplied offset lookup: UTC instant (ms since the epoch) to the
/// offset in effect (seconds east of UTC).
pub trait OffsetSource {
    /// The lookup may answer offset `o` for the instant `t`.
    spec fn answers(&self, t: i64, o: i32) -> bool;

    fn offset_at(&self, instant_ms: i64) -> (r: i32)
        ensures
            self.answers(instant_ms, r),
    ;
}

/// An [`OffsetSource`] backed by a host closure that may be called with
/// every instant.
pub struct HostOffsets<F: Fn(i64) -> i32 + 'static> {
    f: F,
}

impl<F: Fn(i64) -> i32 + 'static> HostOffsets<F> {
    /// The host closure the offsets come from.
    pub closed spec fn callback(&self) -> F {
        self.f
    }

    /// The closure may be called with every instant.
    #[verifier::type_invariant]
    closed spec fn total(&self) -> bool {
        forall|t: i64| call_requires(self.f, (t,))
    }
}

impl<F: Fn(i64) -> i32 + 'static> OffsetSource for HostOffsets<F> {
    /// The closure may return the offset for the instant.
    open spec fn answers(&self, t: i64, o: i32) -> bool {
        call_ensures(self.callback(), (t,), o)
    }

    /// The offset the host closure answers for the instant.
    fn offset_at(&self, instant_ms: i64) -> (r: i32) {
        proof {
            use_type_invariant(self);
        }
        call_host(&self.f, instant_ms)
    }
}

/// Calls the host closure on an instant it may be called with: the answer
/// is one the closure gives for the instant.
fn call_host<F: Fn(i64) -> i32>(f: &F, instant_ms: i64) -> (r: i32)
    requires
        call_requires(*f, (instant_ms,)),
    ensures
        call_ensures(*f, (instant_ms,), r),
{
    f(instant_ms)
}

/// The host lookup of a zone that has none: table zones carry no lookup
/// of this kind, and it is never asked.
pub struct NoHost;

impl OffsetSource for NoHost {
    open spec fn answers(&self, t: i64, o: i32) -> bool {
        o == 0
    }

    fn offset_at(&self, instant_ms: i64) -> (r: i32) {
        0
    }
}

/// A time zone: a sorted list of UTC transition instants (seconds), each
/// paired with the offset (seconds east of UTC) that takes effect at that
/// instant, or a host offset callback.
pub struct Tz<H: OffsetSource = NoHost> {
    name: String,
    /// (utc_transition_seconds, offset_seconds_after_transition), sorted.
    transitions: Vec<(i64, i32)>,
    /// Offset in effect before the first transition.
    first_offset: i32,
    host: Option<H>,
}

/// Number of leading transitions at or before `secs`: for a sorted table, the
/// index of the first transition after `secs`.
pub open spec fn transitions_upto(ts: Seq<(i64, i32)>, secs: int) -> int
    decreases ts.len(),
{
    if ts.len() == 0 {
        0
    } else if ts[0].0 <= secs {
        1 + transitions_upto(ts.drop_first(), secs)
    } else {
        0
    }
}

pub open spec fn table_sorted(ts: Seq<(i64, i32)>) -> bool {
    forall|i: int, j: int| 0 <= i <= j < ts.len() ==> ts[i].0 <= ts[j].0
}

/// The offset (seconds) a transition table gives the instant `instant_ms`.
pub open spec fn table_offset_at(ts: Seq<(i64, i32)>, first: i32, instant_ms: int) -> int {
    let idx = transitions_upto(ts, instant_ms / 1000);
    if idx == 0 {
        first as int
    } else {
        ts[idx - 1].1 as int
    }
}

/// The offsets a transition table can give: the initial one and every
/// transition's.
pub open spec fn table_has_offset(ts: Seq<(i64, i32)>, first: i32, o: int) -> bool {
    o == first || exists|i: int| 0 <= i < ts.len() && ts[i].1 == o
}

/// `o` is an offset of the table under which local wall-clock time `local`
/// is observed: the instant `local - o` carries offset `o`.
pub open spec fn table_valid_offset(ts: Seq<(i64, i32)>, first: i32, local: int, o: int) -> bool {
    table_has_offset(ts, first, o) && table_offset_at(ts, first, local - o * 1000) == o
}

/// The offset in effect before transition `i`.
pub open spec fn offset_before(ts: Seq<(i64, i32)>, first: i32, i: int) -> int {
    if i == 0 {
        first as int
    } else {
        ts[i - 1].1 as int
    }
}

/// Transition `i` springs forward and skips the local time `local`.
pub open spec fn table_gap_at(ts: Seq<(i64, i32)>, first: i32, local: int, i: int) -> bool {
    let before = offset_before(ts, first, i);
    let after = ts[i].1 as int;
    &&& 0 <= i < ts.len()
    &&& after > before
    &&& ts[i].0 * 1000 + before * 1000 <= local
    &&& local < ts[i].0 * 1000 + after * 1000
}

/// The instant a table zone assigns the local wall-clock time `local` under
/// `compatible` disambiguation: the earliest instant observing `local`, or,
/// inside a spring-forward gap, `local` read with the offset before the gap.
pub open spec fn table_local_to_instant(ts: Seq<(i64, i32)>, first: i32, local: int) -> int {
    if exists|o: int| table_valid_offset(ts, first, local, o) {
        let o = choose|o: int|
            table_valid_offset(ts, first, local, o) && forall|o2: int|
                table_valid_offset(ts, first, local, o2) ==> o2 <= o;
        local - o * 1000
    } else {
        let i = choose|i: int|
            table_gap_at(ts, first, local, i) && forall|j: int|
                0 <= j < i ==> !table_gap_at(ts, first, local, j);
        local - offset_before(ts, first, i) * 1000
    }
}

/// How a host zone resolves `local` from the offsets it reports a day before
/// (`o_before`) and after (`o_after`) it, and at the earlier candidate
/// (`o_earlier`).
pub open spec fn host_resolution(local: int, o_before: int, o_after: int, o_earlier: int) -> int {
    let before = local - o_before * 1000;
    let after = local - o_after * 1000;
    let earlier = if before <= after { before } else { after };
    if earlier + o_earlier * 1000 == local {
        earlier
    } else if before >= after {
        before
    } else {
        after
    }
}

/// The earlier of the two candidates for `local`, read with the offsets
/// `o_before` and `o_after`.
pub open spec fn host_earlier(local: int, o_before: int, o_after: int) -> int {
    let before = local - o_before * 1000;
    let after = local - o_after * 1000;
    if before <= after {
        before
    } else {
        after
    }
}

/// The room a wall-clock time needs from the ends of `i64` to be resolved
/// through offsets a host lookup may answer (two offsets of up to 2^31
/// seconds each).
pub const HOST_LOCAL_MARGIN: i64 = 4_294_967_296_000;

impl Tz {
    /// A table-backed zone (the UTC and TZif construction paths).
    fn from_table(name: String, transitions: Vec<(i64, i32)>, first_offset: i32) -> (r: Tz)
        ensures
            !r.is_host(),
            r.table() == transitions@,
            r.first() == first_offset,
            r.spec_name() == name@,
    {
        Tz { name, transitions, first_offset, host: None }
    }

    /// The UTC time zone: fixed zero offset, no transitions.
    pub fn utc() -> (r: Tz)
        ensures
            !r.is_host(),
            r.table() == Seq::<(i64, i32)>::empty(),
            r.first() == 0,
            r.spec_name() == "UTC"@,
            r.well_formed(),
    {
        Tz::from_table("UTC".to_owned(), Vec::new(), 0)
    }

}

impl Clone for Tz {
    /// A copy of a table zone: the same name, transitions and initial offset.
    fn clone(&self) -> (r: Tz)
        ensures
            r.spec_name() == self.spec_name(),
            r.table() == self.table(),
            r.first() == self.first(),
            r.is_host() == self.is_host(),
    {
        let mut transitions: Vec<(i64, i32)> = Vec::new();
        let mut i: usize = 0;
        while i < self.transitions.len()
            invariant
                i <= self.transitions@.len(),
                transitions@ == self.transitions@.take(i as int),
            decreases self.transitions@.len() - i,
        {
            transitions.push(self.transitions[i]);
            proof {
                assert(self.transitions@.take(i + 1) =~= self.transitions@.take(i as int).push(self.transitions@[i as int]));
            }
            i = i + 1;
        }
        assert(self.transitions@.take(self.transitions@.len() as int) =~= self.transitions@);
        let host = match &self.host {
            Some(_) => Some(NoHost),
            None => None,
        };
        Tz { name: self.name.clone(), transitions, first_offset: self.first_offset, host }
    }
}

impl<F: Fn(i64) -> i32 + 'static> Tz<HostOffsets<F>> {
    /// A zone backed by a host offset callback: `f` maps a UTC instant (ms
    /// since the Unix epoch) to the offset in effect (seconds east of UTC).
    /// For hosts without a zoneinfo filesystem, where the embedder owns zone
    /// data. Wall-clock resolution follows Temporal `compatible` semantics,
    /// derived from `f` alone.
    pub fn from_offset_fn(id: &str, f: F) -> (r: Tz<HostOffsets<F>>)
        requires
            forall|t: i64| call_requires(f, (t,)),
        ensures
            r.is_host(),
            r.spec_name() == id@,
            r.well_formed(),
            forall|t: i64, o: i32| r.host_answers(t, o) <==> call_ensures(f, (t,), o),
    {
        Tz { name: id.to_owned(), transitions: Vec::new(), first_offset: 0, host: Some(HostOffsets { f }) }
    }

}

impl<H: OffsetSource> Tz<H> {
    pub closed spec fn spec_name(&self) -> Seq<char> {
        self.name@
    }

    pub closed spec fn is_host(&self) -> bool {
        self.host is Some
    }

    /// The zone's host lookup may answer offset `o` for the instant `t`.
    pub closed spec fn host_answers(&self, t: i64, o: i32) -> bool {
        match self.host {
            Some(h) => h.answers(t, o),
            None => false,
        }
    }

    /// The zone's host lookup may resolve the wall-clock time `local` to the
    /// instant `r`: through the offsets it may answer a day before `local`,
    /// a day after it, and at the earlier of the two candidates they give.
    pub open spec fn host_resolves(&self, local: int, r: int) -> bool {
        exists|a: i32, b: i32, c: i32|
            #![trigger host_resolution(local, a as int, b as int, c as int)]
            self.host_answers((local - 86_400_000) as i64, a) && self.host_answers(
                (local + 86_400_000) as i64,
                b,
            ) && self.host_answers(host_earlier(local, a as int, b as int) as i64, c) && r
                == host_resolution(local, a as int, b as int, c as int)
    }


    pub closed spec fn table(&self) -> Seq<(i64, i32)> {
        self.transitions@
    }

    pub closed spec fn first(&self) -> i32 {
        self.first_offset
    }

    /// A zone the evaluator can resolve every local time against: host-backed,
    /// or with its transitions in ascending order.
    pub open spec fn well_formed(&self) -> bool {
        self.is_host() || table_sorted(self.table())
    }

    /// The offset a table zone gives an instant.
    pub open spec fn spec_offset_at(&self, instant_ms: int) -> int {
        table_offset_at(self.table(), self.first(), instant_ms)
    }

    /// The instant a table zone assigns a local wall-clock time.
    pub open spec fn spec_local_to_instant(&self, local: int) -> int {
        table_local_to_instant(self.table(), self.first(), local)
    }

    /// Is this zone [`Tz::well_formed`]: host-backed, or with its transitions
    /// in ascending order?
    pub fn is_well_formed(&self) -> (r: bool)
        ensures
            r == self.well_formed(),
    {
        if self.host.is_some() {
            return true;
        }
        let n = self.transitions.len();
        let mut i: usize = 1;
        while i < n
            invariant
                n == self.transitions@.len(),
                self.host is None,
                1 <= i,
                forall|a: int, b: int| 0 <= a <= b < i && b < n ==> self.transitions@[a].0 <= self.transitions@[b].0,
            decreases n - i,
        {
            if self.transitions[i - 1].0 > self.transitions[i].0 {
                proof {
                    let ts = self.transitions@;
                    assert(ts[i - 1].0 > ts[i as int].0);
                    assert(!table_sorted(ts));
                }
                return false;
            }
            proof {
                assert forall|a: int, b: int| 0 <= a <= b < i + 1 && b < n implies self.transitions@[a].0 <= self.transitions@[b].0 by {
                    if b == i as int && a < b {
                        assert(self.transitions@[a].0 <= self.transitions@[i - 1].0);
                    }
                }
            }
            i = i + 1;
        }
        true
    }

    pub fn name(&self) -> (r: &str)
        ensures
            r@ == self.spec_name(),
    {
        self.name.as_str()
    }

    /// UTC offset (seconds) in effect at the given UTC instant (ms since
    /// epoch). A table zone reports the offset of the last transition at or
    /// before the instant (the initial offset before the first one); a host
    /// zone reports what its callback returns.
    pub fn offset_at_ms(&self, instant_ms: i64) -> (r: i32)
        ensures
            !self.is_host() && table_sorted(self.table()) ==> r == self.spec_offset_at(
                instant_ms as int,
            ),
            !self.is_host() ==> table_has_offset(self.table(), self.first(), r as int),
            self.is_host() ==> self.host_answers(instant_ms, r),
    {
        match &self.host {
            Some(h) => h.offset_at(instant_ms),
            None => {
                let secs = floor_div(instant_ms, MS_PER_SEC);
                let idx = partition_point(&self.transitions, secs);
                if idx == 0 {
                    self.first_offset
                } else {
                    self.transitions[idx - 1].1
                }
            },
        }
    }

    /// Resolve a naive local wall-clock time (as a naive ordinal in ms) to a
    /// UTC instant (ms), using Temporal `compatible` disambiguation: for a
    /// repeated local time pick the earlier instant; for a gap resolve forward
    /// past it.
    pub fn local_to_instant_ms(&self, local_ms: i64) -> (r: i64)
        requires
            self.well_formed(),
            !self.is_host() ==> forall|o: int|
                table_has_offset(self.table(), self.first(), o) ==> i64::MIN <= local_ms - o * 1000
                    <= i64::MAX,
            self.is_host() ==> i64::MIN + HOST_LOCAL_MARGIN <= local_ms <= i64::MAX - HOST_LOCAL_MARGIN,
        ensures
            !self.is_host() ==> r == self.spec_local_to_instant(local_ms as int),
            self.is_host() ==> self.host_resolves(local_ms as int, r as int),
            local_ms - 2_147_483_648_000 <= r <= local_ms + 2_147_483_648_000,
    {
        if self.host.is_some() {
            self.local_to_instant_host(local_ms)
        } else {
            self.local_to_instant_table(local_ms)
        }
    }

    /// [`Tz::local_to_instant_ms`] through the transition table.
    #[verifier::rlimit(40)]
    fn local_to_instant_table(&self, local_ms: i64) -> (r: i64)
        requires
            !self.is_host(),
            table_sorted(self.table()),
            forall|o: int|
                table_has_offset(self.table(), self.first(), o) ==> i64::MIN <= local_ms - o * 1000
                    <= i64::MAX,
        ensures
            r == self.spec_local_to_instant(local_ms as int),
            local_ms - 2_147_483_648_000 <= r <= local_ms + 2_147_483_648_000,
    {
        let ghost ts = self.transitions@;
        let ghost first = self.first_offset;
        // Distinct offsets that appear in this zone.
        let mut offsets: Vec<i32> = Vec::new();
        offsets.push(self.first_offset);
        assert(offsets@[0] == first);
        let n = self.transitions.len();
        let mut k: usize = 0;
        while k < n
            invariant
                n == ts.len(),
                ts == self.transitions@,
                first == self.first_offset,
                k <= n,
                offsets@.contains(first),
                forall|j: int| 0 <= j < k ==> offsets@.contains(#[trigger] ts[j].1),
                forall|j: int| 0 <= j < offsets@.len() ==> table_has_offset(ts, first, #[trigger] offsets@[j] as int),
            decreases n - k,
        {
            let off = self.transitions[k].1;
            let ghost prev = offsets@;
            if !contains_i32(&offsets, off) {
                offsets.push(off);
                proof {
                    assert(offsets@[offsets@.len() - 1] == off);
                    assert forall|x: i32| prev.contains(x) implies offsets@.contains(x) by {
                        let m = choose|m: int| 0 <= m < prev.len() && prev[m] == x;
                        assert(offsets@[m] == x);
                    }
                    assert(table_has_offset(ts, first, off as int));
                }
            }
            proof {
                assert(offsets@.contains(ts[k as int].1));
            }
            k = k + 1;
        }
        assert(self.table() == ts && self.first() == first);
        assert(forall|o: int| table_has_offset(ts, first, o) ==> i64::MIN <= local_ms - o * 1000 <= i64::MAX);
        // The earliest candidate instant whose own offset confirms it.
        let mut best: Option<i64> = None;
        let mut best_off: i32 = 0;
        let mut q: usize = 0;
        while q < offsets.len()
            invariant
                ts == self.transitions@,
                first == self.first_offset,
                !self.is_host(),
                table_sorted(ts),
                forall|o: int| table_has_offset(ts, first, o) ==> i64::MIN <= local_ms - o * 1000 <= i64::MAX,
                q <= offsets@.len(),
                forall|j: int| 0 <= j < offsets@.len() ==> table_has_offset(ts, first, #[trigger] offsets@[j] as int),
                best is None ==> forall|j: int| 0 <= j < q ==> !table_valid_offset(ts, first, local_ms as int, #[trigger] offsets@[j] as int),
                best is Some ==> best->0 == local_ms - best_off * 1000 && table_valid_offset(ts, first, local_ms as int, best_off as int),
                best is Some ==> forall|j: int| 0 <= j < q && table_valid_offset(ts, first, local_ms as int, #[trigger] offsets@[j] as int) ==> offsets@[j] <= best_off,
            decreases offsets@.len() - q,
        {
            let o = offsets[q];
            assert(table_has_offset(ts, first, offsets@[q as int] as int));
            let cand = local_ms - (o as i64) * 1000;
            if self.offset_at_ms(cand) == o {
                match best {
                    Some(_) => {
                        if o > best_off {
                            best = Some(cand);
                            best_off = o;
                        }
                    },
                    None => {
                        best = Some(cand);
                        best_off = o;
                    },
                }
            }
            q = q + 1;
        }
        proof {
            assert forall|o: int| table_valid_offset(ts, first, local_ms as int, o) implies offsets@.contains(o as i32) by {
                if o != first {
                    let i = choose|i: int| 0 <= i < ts.len() && ts[i].1 == o;
                    assert(offsets@.contains(ts[i].1));
                }
            }
        }
        if let Some(x) = best {
            proof {
                assert forall|o2: int| table_valid_offset(ts, first, local_ms as int, o2) implies o2 <= best_off by {
                    assert(offsets@.contains(o2 as i32));
                    let j = choose|j: int| 0 <= j < offsets@.len() && offsets@[j] == o2 as i32;
                    assert(table_valid_offset(ts, first, local_ms as int, offsets@[j] as int));
                }
                let c = choose|o: int|
                    table_valid_offset(ts, first, local_ms as int, o) && forall|o2: int|
                        table_valid_offset(ts, first, local_ms as int, o2) ==> o2 <= o;
                assert(c <= best_off && best_off <= c);
            }
            return x;
        }
        proof {
            assert(!exists|o: int| table_valid_offset(ts, first, local_ms as int, o)) by {
                assert forall|o: int| !table_valid_offset(ts, first, local_ms as int, o) by {
                    if table_valid_offset(ts, first, local_ms as int, o) {
                        assert(offsets@.contains(o as i32));
                        let j = choose|j: int| 0 <= j < offsets@.len() && offsets@[j] == o as i32;
                        assert(table_valid_offset(ts, first, local_ms as int, offsets@[j] as int));
                    }
                }
            }
            lemma_gap_exists(ts, first, local_ms as int);
        }
        // No offset validates `local_ms`: it sits in a spring-forward gap.
        // `compatible` reads the wall-clock time with the offset in effect
        // before the transition, moving it forward past the gap.
        let g = first_gap(&self.transitions, self.first_offset, local_ms);
        let off_before = if g == 0 { self.first_offset } else { self.transitions[g - 1].1 };
        proof {
            let c = choose|c: int|
                table_gap_at(ts, first, local_ms as int, c) && forall|j: int|
                    0 <= j < c ==> !table_gap_at(ts, first, local_ms as int, j);
            assert(c == g);
            if g > 0 {
                assert(ts[g - 1].1 == off_before);
            }
            assert(table_has_offset(ts, first, off_before as int));
        }
        local_ms - (off_before as i64) * 1000
    }

    /// The host-backed variant of [`Tz::local_to_instant_ms`]: with only an
    /// offset lookup available (no transition table), the two candidate
    /// instants come from the offsets in effect a day either side of the
    /// target. A unique local time resolves through its own offset; a
    /// repeated one picks the earlier instant; a gap resolves forward.
    fn local_to_instant_host(&self, local_ms: i64) -> (r: i64)
        requires
            self.is_host(),
            i64::MIN + HOST_LOCAL_MARGIN <= local_ms <= i64::MAX - HOST_LOCAL_MARGIN,
        ensures
            self.host_resolves(local_ms as int, r as int),
            local_ms - 2_147_483_648_000 <= r <= local_ms + 2_147_483_648_000,
    {
        let day_ms: i64 = 86_400_000;
        let o_before = self.offset_at_ms(local_ms - day_ms);
        let o_after = self.offset_at_ms(local_ms + day_ms);
        let before = local_ms - (o_before as i64) * MS_PER_SEC;
        let after = local_ms - (o_after as i64) * MS_PER_SEC;
        let earlier = if before <= after { before } else { after };
        let o_earlier = self.offset_at_ms(earlier);
        let r = if earlier + (o_earlier as i64) * MS_PER_SEC == local_ms {
            earlier
        } else if before >= after {
            before
        } else {
            after
        };
        assert(r == host_resolution(local_ms as int, o_before as int, o_after as int, o_earlier as int));
        assert(earlier == host_earlier(local_ms as int, o_before as int, o_after as int));
        r
    }
}

/// Index of the first transition strictly after `secs` in a sorted table
/// (binary search).
fn partition_point(ts: &Vec<(i64, i32)>, secs: i64) -> (r: usize)
    ensures
        r <= ts@.len(),
        table_sorted(ts@) ==> r == transitions_upto(ts@, secs as int),
{
    let mut lo: usize = 0;
    let mut hi: usize = ts.len();
    while lo < hi
        invariant
            lo <= hi <= ts@.len(),
            table_sorted(ts@) ==> forall|i: int| 0 <= i < lo ==> ts@[i].0 <= secs,
            table_sorted(ts@) ==> forall|i: int| hi <= i < ts@.len() ==> ts@[i].0 > secs,
        decreases hi - lo,
    {
        let mid = lo + (hi - lo) / 2;
        if ts[mid].0 <= secs {
            lo = mid + 1;
        } else {
            hi = mid;
        }
    }
    proof {
        if table_sorted(ts@) {
            lemma_transitions_upto(ts@, secs as int, lo as int);
        }
    }
    lo
}

/// A split point of a table (everything before at or before `secs`,
/// everything after strictly after) is its `transitions_upto`.
pub proof fn lemma_transitions_upto(ts: Seq<(i64, i32)>, secs: int, k: int)
    requires
        0 <= k <= ts.len(),
        forall|i: int| 0 <= i < k ==> ts[i].0 <= secs,
        forall|i: int| k <= i < ts.len() ==> ts[i].0 > secs,
    ensures
        transitions_upto(ts, secs) == k,
    decreases ts.len(),
{
    if ts.len() > 0 {
        if k > 0 {
            lemma_transitions_upto(ts.drop_first(), secs, k - 1);
        }
    }
}



// ---- TZif decoding ----------------------------------------------------------

pub open spec fn spec_be_u32(d: Seq<u8>, p: int) -> int {
    d[p] * 16777216 + d[p + 1] * 65536 + d[p + 2] * 256 + d[p + 3]
}

pub open spec fn spec_be_i32(d: Seq<u8>, p: int) -> int {
    let u = spec_be_u32(d, p);
    if u >= 2147483648 {
        u - 4294967296
    } else {
        u
    }
}

pub open spec fn spec_be_i64(d: Seq<u8>, p: int) -> int {
    let u = spec_be_u32(d, p) * 4294967296 + spec_be_u32(d, p + 4);
    if u >= 9223372036854775808 {
        u - 18446744073709551616
    } else {
        u
    }
}

/// Big-endian `i32` at byte `p`.
pub fn be_i32(d: &[u8], p: usize) -> (r: i32)
    requires
        p + 4 <= d@.len(),
    ensures
        r == spec_be_i32(d@, p as int),
{
    let u = be_u32(d, p) as u64;
    if u >= 2147483648 {
        (u as i64 - 4294967296) as i32
    } else {
        u as i32
    }
}

/// Big-endian `u32` at byte `p`, widened to `usize`.
pub fn be_u32(d: &[u8], p: usize) -> (r: usize)
    requires
        p + 4 <= d@.len(),
    ensures
        r == spec_be_u32(d@, p as int),
{
    let v: u32 = (d[p] as u32) * 16777216 + (d[p + 1] as u32) * 65536 + (d[p + 2] as u32) * 256
        + (d[p + 3] as u32);
    v as usize
}

/// Big-endian `i64` at byte `p`.
pub fn be_i64(d: &[u8], p: usize) -> (r: i64)
    requires
        p + 8 <= d@.len(),
    ensures
        r == spec_be_i64(d@, p as int),
{
    assert(d@.len() == d.len());
    let hi = be_u32(d, p) as u64;
    let lo = be_u32(d, p + 4) as u64;
    let u: u64 = hi * 4294967296 + lo;
    if u >= 9223372036854775808 {
        ((u - 9223372036854775808) as i64) + i64::MIN
    } else {
        u as i64
    }
}

/// The six counts of a TZif header.
pub struct Counts {
    pub isutcnt: usize,
    pub isstdcnt: usize,
    pub leapcnt: usize,
    pub timecnt: usize,
    pub typecnt: usize,
    pub charcnt: usize,
}

/// A TZif header (magic `TZif`, 44 bytes) starts at `pos`.
pub open spec fn header_at(d: Seq<u8>, pos: int) -> bool {
    pos + 44 <= d.len() && d[pos] == 84 && d[pos + 1] == 90 && d[pos + 2] == 105 && d[pos + 3] == 102
}

pub open spec fn counts_at(d: Seq<u8>, pos: int) -> Counts {
    let base = pos + 20;
    Counts {
        isutcnt: spec_be_u32(d, base) as usize,
        isstdcnt: spec_be_u32(d, base + 4) as usize,
        leapcnt: spec_be_u32(d, base + 8) as usize,
        timecnt: spec_be_u32(d, base + 12) as usize,
        typecnt: spec_be_u32(d, base + 16) as usize,
        charcnt: spec_be_u32(d, base + 20) as usize,
    }
}

fn read_counts(d: &[u8], pos: usize) -> (r: Result<Counts, String>)
    ensures
        header_at(d@, pos as int) ==> (r matches Ok(c) && c == counts_at(d@, pos as int)),
        !header_at(d@, pos as int) ==> (r matches Err(m) && m@ == "not a TZif file"@),
{
    if pos > d.len() || d.len() - pos < 44 || d[pos] != 84 || d[pos + 1] != 90 || d[pos + 2] != 105
        || d[pos + 3] != 102 {
        return Err("not a TZif file".to_owned());
    }
    let base = pos + 20;
    Ok(
        Counts {
            isutcnt: be_u32(d, base),
            isstdcnt: be_u32(d, base + 4),
            leapcnt: be_u32(d, base + 8),
            timecnt: be_u32(d, base + 12),
            typecnt: be_u32(d, base + 16),
            charcnt: be_u32(d, base + 20),
        },
    )
}

/// Size in bytes of a TZif data block for the given time widths.
pub open spec fn spec_block_size(c: Counts, time_size: int, leap_time_size: int) -> int {
    c.timecnt * time_size + c.timecnt + c.typecnt * 6 + c.charcnt + c.leapcnt * (leap_time_size
        + 4) + c.isstdcnt + c.isutcnt
}

fn block_size(c: &Counts, time_size: u64, leap_time_size: u64) -> (r: u64)
    requires
        c.timecnt < 4294967296,
        c.typecnt < 4294967296,
        c.charcnt < 4294967296,
        c.leapcnt < 4294967296,
        c.isstdcnt < 4294967296,
        c.isutcnt < 4294967296,
        time_size <= 8,
        leap_time_size <= 8,
    ensures
        r == spec_block_size(*c, time_size as int, leap_time_size as int),
{
    let t = c.timecnt as u64;
    let l = c.leapcnt as u64;
    assert(t * time_size <= 4294967296 * 8) by (nonlinear_arith)
        requires t < 4294967296, time_size <= 8;
    assert(l * (leap_time_size + 4) <= 4294967296 * 12) by (nonlinear_arith)
        requires l < 4294967296, leap_time_size <= 8;
    (c.timecnt as u64) * time_size + (c.timecnt as u64) + (c.typecnt as u64) * 6
        + (c.charcnt as u64) + (c.leapcnt as u64) * (leap_time_size + 4) + (c.isstdcnt as u64)
        + (c.isutcnt as u64)
}

/// The data block at `start` lies inside `d`, and every transition names an
/// existing local time type: decoding reads nothing out of bounds.
pub open spec fn body_fits(d: Seq<u8>, start: int, time_size: int, c: Counts) -> bool {
    let idx_at = start + c.timecnt * time_size;
    &&& start + c.timecnt * time_size + c.timecnt + c.typecnt * 6 <= d.len()
    &&& c.typecnt > 0 ==> forall|i: int| 0 <= i < c.timecnt ==> #[trigger] type_index_at(d, idx_at, i) < c.typecnt
}

pub open spec fn type_index_at(d: Seq<u8>, idx_at: int, i: int) -> u8 {
    d[idx_at + i]
}

pub open spec fn time_at(d: Seq<u8>, start: int, time_size: int, i: int) -> i64 {
    if time_size == 8 {
        spec_be_i64(d, start + 8 * i) as i64
    } else {
        spec_be_i32(d, start + 4 * i) as i64
    }
}

/// The local time types start after the times and their type indices.
pub open spec fn types_start(start: int, time_size: int, c: Counts) -> int {
    start + c.timecnt * time_size + c.timecnt
}

pub open spec fn utoff_at(d: Seq<u8>, types_at: int, k: int) -> i32 {
    spec_be_i32(d, types_at + 6 * k) as i32
}

pub open spec fn is_std_type(d: Seq<u8>, types_at: int, k: int) -> bool {
    d[types_at + 6 * k + 4] == 0
}

pub open spec fn body_transitions(d: Seq<u8>, start: int, time_size: int, c: Counts) -> Seq<(i64, i32)> {
    let idx_at = start + c.timecnt * time_size;
    let types_at = types_start(start, time_size, c);
    Seq::new(
        c.timecnt as nat,
        |i: int| (time_at(d, start, time_size, i), utoff_at(d, types_at, type_index_at(d, idx_at, i) as int)),
    )
}

/// Offset before the first transition: the first standard-time type's,
/// else type 0's.
pub open spec fn body_first_offset(d: Seq<u8>, start: int, time_size: int, c: Counts) -> i32 {
    let types_at = types_start(start, time_size, c);
    if exists|k: int| 0 <= k < c.typecnt && is_std_type(d, types_at, k) {
        let k = choose|k: int|
            0 <= k < c.typecnt && is_std_type(d, types_at, k) && forall|j: int|
                0 <= j < k ==> !is_std_type(d, types_at, j);
        utoff_at(d, types_at, k)
    } else {
        utoff_at(d, types_at, 0)
    }
}

fn parse_body(d: &[u8], start: usize, time_size: usize, c: &Counts) -> (r: Result<(Vec<(i64, i32)>, i32), String>)
    requires
        time_size == 4 || time_size == 8,
        body_fits(d@, start as int, time_size as int, *c),
    ensures
        c.typecnt == 0 ==> (r matches Err(m) && m@ == "TZif file has no local time types"@),
        c.typecnt > 0 ==> (r matches Ok((ts, first)) && ts@ == body_transitions(
            d@,
            start as int,
            time_size as int,
            *c,
        ) && first == body_first_offset(d@, start as int, time_size as int, *c)),
{
    let ghost dd = d@;
    assert(dd.len() == d.len());
    let mut p = start;
    let mut times: Vec<i64> = Vec::new();
    let mut i: usize = 0;
    while i < c.timecnt
        invariant
            dd == d@,
            dd.len() == d.len(),
            time_size == 4 || time_size == 8,
            body_fits(dd, start as int, time_size as int, *c),
            i <= c.timecnt,
            p == start + i * time_size,
            times@.len() == i,
            forall|j: int| 0 <= j < i ==> times@[j] == time_at(dd, start as int, time_size as int, j),
        decreases c.timecnt - i,
    {
        proof {
            assert(p + time_size <= start + c.timecnt * time_size) by (nonlinear_arith)
                requires p == start + i * time_size, i < c.timecnt, time_size <= 8;
        }
        let t = if time_size == 8 {
            be_i64(d, p)
        } else {
            be_i32(d, p) as i64
        };
        times.push(t);
        p = p + time_size;
        i = i + 1;
        proof {
            assert(p == start + i * time_size) by (nonlinear_arith)
                requires p == start + (i - 1) * time_size + time_size;
        }
    }
    let idx_at = p;
    p = p + c.timecnt;
    let types_at = p;
    let mut utoff: Vec<i32> = Vec::new();
    let mut isdst: Vec<bool> = Vec::new();
    let mut k: usize = 0;
    while k < c.typecnt
        invariant
            dd == d@,
            dd.len() == d.len(),
            body_fits(dd, start as int, time_size as int, *c),
            types_at == types_start(start as int, time_size as int, *c),
            k <= c.typecnt,
            p == types_at + 6 * k,
            utoff@.len() == k,
            isdst@.len() == k,
            forall|j: int| 0 <= j < k ==> utoff@[j] == utoff_at(dd, types_at as int, j),
            forall|j: int| 0 <= j < k ==> isdst@[j] == !is_std_type(dd, types_at as int, j),
        decreases c.typecnt - k,
    {
        utoff.push(be_i32(d, p));
        isdst.push(d[p + 4] != 0);
        p = p + 6;
        k = k + 1;
    }
    if utoff.len() == 0 {
        return Err("TZif file has no local time types".to_owned());
    }
    let mut transitions: Vec<(i64, i32)> = Vec::new();
    let mut i: usize = 0;
    while i < c.timecnt
        invariant
            dd == d@,
            dd.len() == d.len(),
            body_fits(dd, start as int, time_size as int, *c),
            c.typecnt > 0,
            idx_at == start + c.timecnt * time_size,
            types_at == types_start(start as int, time_size as int, *c),
            utoff@.len() == c.typecnt,
            times@.len() == c.timecnt,
            forall|j: int| 0 <= j < c.timecnt ==> times@[j] == time_at(dd, start as int, time_size as int, j),
            forall|j: int| 0 <= j < c.typecnt ==> utoff@[j] == utoff_at(dd, types_at as int, j),
            i <= c.timecnt,
            transitions@.len() == i,
            forall|j: int| 0 <= j < i ==> transitions@[j] == body_transitions(dd, start as int, time_size as int, *c)[j],
        decreases c.timecnt - i,
    {
        assert(type_index_at(dd, idx_at as int, i as int) < c.typecnt);
        let ti = d[idx_at + i] as usize;
        transitions.push((times[i], utoff[ti]));
        i = i + 1;
    }
    assert(transitions@ =~= body_transitions(dd, start as int, time_size as int, *c));
    // Offset before the first transition: first standard-time type, else type 0.
    let mut first_offset = utoff[0];
    let mut k: usize = 0;
    while k < c.typecnt
        invariant
            dd == d@,
            dd.len() == d.len(),
            types_at == types_start(start as int, time_size as int, *c),
            k <= c.typecnt,
            c.typecnt > 0,
            utoff@.len() == c.typecnt,
            isdst@.len() == c.typecnt,
            forall|j: int| 0 <= j < c.typecnt ==> utoff@[j] == utoff_at(dd, types_at as int, j),
            forall|j: int| 0 <= j < c.typecnt ==> isdst@[j] == !is_std_type(dd, types_at as int, j),
            forall|j: int| 0 <= j < k ==> !is_std_type(dd, types_at as int, j),
            transitions@ == body_transitions(dd, start as int, time_size as int, *c),
            first_offset == utoff_at(dd, types_at as int, 0),
        decreases c.typecnt - k,
    {
        if !isdst[k] {
            first_offset = utoff[k];
            proof {
                assert(is_std_type(dd, types_at as int, k as int));
                let q = choose|q: int|
                    0 <= q < c.typecnt && is_std_type(dd, types_at as int, q) && forall|j: int|
                        0 <= j < q ==> !is_std_type(dd, types_at as int, j);
                assert(q == k);
            }
            return Ok((transitions, first_offset));
        }
        k = k + 1;
    }
    Ok((transitions, first_offset))
}

/// What decoding a TZif buffer gives: the v2+ 64-bit block when the version
/// is `2` or `3`, else the v1 32-bit block.
pub open spec fn spec_v1_body(d: Seq<u8>) -> int {
    44 + spec_block_size(counts_at(d, 0), 4, 4)
}

pub open spec fn is_v2(d: Seq<u8>) -> bool {
    d[4] == 50 || d[4] == 51
}

/// Decoding a TZif buffer reads only bytes inside it.
pub open spec fn tzif_readable(d: Seq<u8>) -> bool {
    header_at(d, 0) ==> if is_v2(d) {
        header_at(d, spec_v1_body(d)) ==> body_fits(d, spec_v1_body(d) + 44, 8, counts_at(d, spec_v1_body(d)))
    } else {
        body_fits(d, 44, 4, counts_at(d, 0))
    }
}

/// The transition table and initial offset a readable TZif buffer decodes to.
pub open spec fn spec_parse_tzif(d: Seq<u8>) -> Result<(Seq<(i64, i32)>, i32), Seq<char>> {
    if !header_at(d, 0) {
        Err("not a TZif file"@)
    } else if !tzif_readable(d) {
        Err("corrupt TZif file: its data runs past the end or names a missing type"@)
    } else {
        let (start, size, c) = if is_v2(d) {
            (spec_v1_body(d) + 44, 8int, counts_at(d, spec_v1_body(d)))
        } else {
            (44int, 4int, counts_at(d, 0))
        };
        if is_v2(d) && !header_at(d, spec_v1_body(d)) {
            Err("not a TZif file"@)
        } else if c.typecnt == 0 {
            Err("TZif file has no local time types"@)
        } else {
            Ok((body_transitions(d, start, size, c), body_first_offset(d, start, size, c)))
        }
    }
}

/// Decode a TZif buffer into a zone named `name`.
pub fn parse_tzif(d: &[u8], name: &str) -> (r: Result<Tz, String>)
    ensures
        match spec_parse_tzif(d@) {
            Ok((ts, first)) => r matches Ok(z) && !z.is_host() && z.table() == ts && z.first() == first
                && z.spec_name() == name@,
            Err(m) => r matches Err(e) && e@ == m,
        },
{
    let c1 = read_counts(d, 0)?;
    if !Tz::entry_is_readable(d) {
        return Err("corrupt TZif file: its data runs past the end or names a missing type".to_owned());
    }
    let version = d[4];
    let (transitions, first_offset) = if version == 50 || version == 51 {
        // Skip the 32-bit v1 block, then parse the 64-bit v2/v3 block.
        let v1_body = 44 + block_size(&c1, 4, 4);
        if v1_body > d.len() as u64 {
            return Err("not a TZif file".to_owned());
        }
        let c2 = read_counts(d, v1_body as usize)?;
        let v2_body_start = v1_body as usize + 44;
        parse_body(d, v2_body_start, 8, &c2)?
    } else {
        parse_body(d, 44, 4, &c1)?
    };
    Ok(Tz::from_table(name.to_owned(), transitions, first_offset))
}


/// An identifier that names the UTC zone without any zone data.
pub open spec fn names_utc(id: Seq<char>) -> bool {
    id == "UTC"@ || id == "Etc/UTC"@ || id.len() == 0
}

/// An identifier refused before any lookup (it could escape the zone
/// database directory).
pub open spec fn invalid_zone_id(id: Seq<char>) -> bool {
    (id.len() > 0 && id[0] == '/') || has_dot_dot(id)
}

/// The outcome of loading zone `id` whose database entry is `entry`
/// (`None` when the database holds no entry of that name): the transition
/// table and initial offset, or the error message.
pub open spec fn spec_load(id: Seq<char>, entry: Option<Seq<u8>>) -> Result<(Seq<(i64, i32)>, i32), Seq<char>> {
    if names_utc(id) {
        Ok((Seq::empty(), 0i32))
    } else if invalid_zone_id(id) {
        Err("invalid identifier"@)
    } else {
        match entry {
            None => Err("no TZif entry in the system database"@),
            Some(d) => spec_parse_tzif(d),
        }
    }
}

impl Tz {
    /// Load an IANA zone by identifier (e.g. `"Europe/Berlin"`) from its
    /// zone-database entry: the bytes of the TZif file of that name, or `None`
    /// when the database holds no such file. `UTC`, `Etc/UTC` and the empty
    /// identifier are synthesised without any entry; identifiers starting
    /// with `/` or holding `..` are refused before any lookup.
    pub fn load_entry(id: &str, entry: Option<&[u8]>) -> (r: Result<Tz, UnknownTimeZone>)
        ensures
            match spec_load(id@, match entry { Some(d) => Some(d@), None => None }) {
                Ok((ts, first)) => r matches Ok(z) && !z.is_host() && z.table() == ts && z.first()
                    == first && z.spec_name() == (if names_utc(id@) { "UTC"@ } else { id@ }),
                Err(m) => r matches Err(e) && e@ == (id@, m),
            },
    {
        if str_eq(id, "UTC") || str_eq(id, "Etc/UTC") || id.unicode_len() == 0 {
            return Ok(Tz::utc());
        }
        if starts_with_char(id, '/') || contains_dot_dot(id) {
            return Err(UnknownTimeZone::new(id, "invalid identifier"));
        }
        match entry {
            Some(bytes) => match parse_tzif(bytes, id) {
                Ok(z) => Ok(z),
                Err(message) => Err(UnknownTimeZone::new(id, message.as_str())),
            },
            None => Err(UnknownTimeZone::new(id, "no TZif entry in the system database")),
        }
    }

    /// Does loading `id` read its zone-database entry? Not for the names of
    /// UTC, nor for identifiers refused before any lookup.
    pub fn needs_entry(id: &str) -> (r: bool)
        ensures
            r == (!names_utc(id@) && !invalid_zone_id(id@)),
    {
        !(str_eq(id, "UTC") || str_eq(id, "Etc/UTC") || id.unicode_len() == 0) && !(starts_with_char(id, '/')
            || contains_dot_dot(id))
    }

    /// Are the transitions a TZif buffer decodes to (if it decodes) in
    /// ascending order?
    pub fn entry_is_ordered(d: &[u8]) -> (r: bool)
        ensures
            r == (spec_parse_tzif(d@) matches Ok((ts, _)) ==> table_sorted(ts)),
    {
        match parse_tzif(d, "") {
            Ok(z) => z.is_well_formed(),
            Err(_) => true,
        }
    }

    /// Does decoding `d` as TZif stay inside the buffer? [`Tz::load_entry`]
    /// refuses an entry that does not.
    pub fn entry_is_readable(d: &[u8]) -> (r: bool)
        ensures
            r == tzif_readable(d@),
    {
        let n = d.len();
        if n < 44 || d[0] != 84 || d[1] != 90 || d[2] != 105 || d[3] != 102 {
            return true;
        }
        let c1 = read_counts(d, 0);
        let c1 = match c1 {
            Ok(c) => c,
            Err(_) => return true,
        };
        if d[4] == 50 || d[4] == 51 {
            let v1_body = 44 + block_size(&c1, 4, 4);
            if v1_body > n as u64 {
                return true;
            }
            match read_counts(d, v1_body as usize) {
                Ok(c2) => body_fits_exec(d, v1_body + 44, 8, &c2),
                Err(_) => true,
            }
        } else {
            body_fits_exec(d, 44, 4, &c1)
        }
    }
}

fn body_fits_exec(d: &[u8], start: u64, time_size: u64, c: &Counts) -> (r: bool)
    requires
        time_size == 4 || time_size == 8,
        start <= 1_000_000_000_000,
        c.timecnt < 4294967296,
        c.typecnt < 4294967296,
    ensures
        r == body_fits(d@, start as int, time_size as int, *c),
{
    let n = d.len() as u64;
    let t = c.timecnt as u64;
    assert(t * time_size <= 4294967296 * 8) by (nonlinear_arith)
        requires t < 4294967296, time_size <= 8;
    let end = start + t * time_size + t + (c.typecnt as u64) * 6;
    if end > n {
        return false;
    }
    if c.typecnt == 0 {
        return true;
    }
    let idx_at = (start + t * time_size) as usize;
    let dl = d.len();
    let mut i: usize = 0;
    while i < c.timecnt
        invariant
            idx_at == start + c.timecnt * time_size,
            idx_at + c.timecnt <= d@.len(),
            d@.len() == dl,
            c.typecnt > 0,
            i <= c.timecnt,
            forall|j: int| 0 <= j < i ==> #[trigger] type_index_at(d@, idx_at as int, j) < c.typecnt,
        decreases c.timecnt - i,
    {
        if d[idx_at + i] as usize >= c.typecnt {
            assert(type_index_at(d@, idx_at as int, i as int) >= c.typecnt);
            return false;
        }
        i = i + 1;
    }
    true
}

/// The first transition that springs forward over `local_ms`.
fn first_gap(ts: &Vec<(i64, i32)>, first: i32, local_ms: i64) -> (g: usize)
    requires
        exists|j: int| table_gap_at(ts@, first, local_ms as int, j),
    ensures
        table_gap_at(ts@, first, local_ms as int, g as int),
        forall|j: int| 0 <= j < g ==> !table_gap_at(ts@, first, local_ms as int, j),
{
    let n = ts.len();
    let mut i: usize = 0;
    while i < n
        invariant
            n == ts@.len(),
            i <= n,
            forall|j: int| 0 <= j < i ==> !table_gap_at(ts@, first, local_ms as int, j),
            exists|j: int| table_gap_at(ts@, first, local_ms as int, j),
        decreases n - i,
    {
        let (tt, off_after) = ts[i];
        let off_before = if i == 0 { first } else { ts[i - 1].1 };
        if gap_contains(tt, off_before, off_after, local_ms) {
            return i;
        }
        i = i + 1;
    }
    proof {
        let j = choose|j: int| table_gap_at(ts@, first, local_ms as int, j);
    }
    0
}

/// The transition at `tt` (seconds) from `before` to `after` springs forward
/// over the local time `local_ms`. Computed in `i128`: transition times in
/// TZif data may lie far outside the millisecond range of `i64`.
fn gap_contains(tt: i64, before: i32, after: i32, local_ms: i64) -> (r: bool)
    ensures
        r == (after > before && tt * 1000 + before * 1000 <= local_ms && local_ms < tt * 1000
            + after * 1000),
{
    let gap_start = (tt as i128) * 1000 + (before as i128) * 1000;
    let gap_end = (tt as i128) * 1000 + (after as i128) * 1000;
    after > before && (local_ms as i128) >= gap_start && (local_ms as i128) < gap_end
}

fn contains_i32(v: &Vec<i32>, x: i32) -> (r: bool)
    ensures
        r == v@.contains(x),
{
    let mut i: usize = 0;
    while i < v.len()
        invariant
            i <= v@.len(),
            forall|j: int| 0 <= j < i ==> v@[j] != x,
        decreases v@.len() - i,
    {
        if v[i] == x {
            return true;
        }
        i = i + 1;
    }
    false
}

proof fn lemma_div_1000_bounds(x: int, t: int)
    ensures
        x >= t * 1000 ==> x / 1000 >= t,
        x < t * 1000 ==> x / 1000 < t,
{
    vstd::arithmetic::div_mod::lemma_fundamental_div_mod(x, 1000);
    assert(x >= t * 1000 ==> x / 1000 >= t) by (nonlinear_arith)
        requires
            x == 1000 * (x / 1000) + x % 1000,
            0 <= x % 1000 < 1000,
    ;
    assert(x < t * 1000 ==> x / 1000 < t) by (nonlinear_arith)
        requires
            x == 1000 * (x / 1000) + x % 1000,
            0 <= x % 1000 < 1000,
    ;
}

/// In a sorted table, an instant between transitions `i` and `i + 1` carries
/// transition `i`'s offset.
proof fn lemma_offset_between(ts: Seq<(i64, i32)>, first: i32, x: int, i: int)
    requires
        table_sorted(ts),
        0 <= i < ts.len(),
        x >= ts[i].0 * 1000,
        i + 1 < ts.len() ==> x < ts[i + 1].0 * 1000,
    ensures
        table_offset_at(ts, first, x) == ts[i].1,
{
    let secs = x / 1000;
    lemma_div_1000_bounds(x, ts[i].0 as int);
    if i + 1 < ts.len() {
        lemma_div_1000_bounds(x, ts[i + 1].0 as int);
    }
    lemma_transitions_upto(ts, secs, i + 1);
}

/// When no offset of a sorted table observes `local`, some transition at or
/// after `i` springs forward over it.
proof fn lemma_gap_from(ts: Seq<(i64, i32)>, first: i32, local: int, i: int)
    requires
        table_sorted(ts),
        0 <= i < ts.len(),
        local >= ts[i].0 * 1000 + offset_before(ts, first, i) * 1000,
        forall|o: int| !table_valid_offset(ts, first, local, o),
    ensures
        exists|j: int| table_gap_at(ts, first, local, j),
    decreases ts.len() - i,
{
    let after = ts[i].1 as int;
    if local < ts[i].0 * 1000 + after * 1000 {
        assert(table_gap_at(ts, first, local, i));
    } else {
        let x = local - after * 1000;
        assert(table_has_offset(ts, first, after));
        if i + 1 < ts.len() && local >= ts[i + 1].0 * 1000 + after * 1000 {
            assert(offset_before(ts, first, i + 1) == after);
            lemma_gap_from(ts, first, local, i + 1);
        } else {
            lemma_offset_between(ts, first, x, i);
            assert(table_valid_offset(ts, first, local, after));
        }
    }
}

/// A sorted table resolves every local time: some offset observes it, or a
/// spring-forward gap contains it.
pub proof fn lemma_gap_exists(ts: Seq<(i64, i32)>, first: i32, local: int)
    requires
        table_sorted(ts),
        forall|o: int| !table_valid_offset(ts, first, local, o),
    ensures
        exists|j: int| table_gap_at(ts, first, local, j),
{
    let x = local - first * 1000;
    assert(table_has_offset(ts, first, first as int));
    if ts.len() == 0 {
        assert(table_offset_at(ts, first, x) == first);
        assert(table_valid_offset(ts, first, local, first as int));
    } else if local < ts[0].0 * 1000 + first * 1000 {
        lemma_div_1000_bounds(x, ts[0].0 as int);
        assert(transitions_upto(ts, x / 1000) == 0);
        assert(table_valid_offset(ts, first, local, first as int));
    } else {
        lemma_gap_from(ts, first, local, 0);
    }
}

} // verus!

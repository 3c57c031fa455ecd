//! Serving one known version of an actor: which ranges of its sequence numbers
//! are sent to a peer that asked for them.

use rangemap::RangeInclusiveSet;
use vstd::prelude::*;

use crate::range_set::{self, list_ranges, overlapping_ranges, same_ranges};
use crate::span::Span;

verus! {

/// A version of which only some sequence numbers have arrived.
pub struct PartialVersion {
    /// The sequence numbers that are here.
    pub seqs: RangeInclusiveSet<u64>,
    /// The last sequence number of the version.
    pub last_seq: u64,
}

/// What was asked for, or everything if nothing in particular was.
pub open spec fn seqs_or_all(seqs_needed: Seq<Span>, last_seq: u64) -> Seq<Span> {
    if seqs_needed.len() == 0 {
        seq![Span { start: 0, end: last_seq }]
    } else {
        seqs_needed
    }
}

fn needed_seqs(seqs_needed: Vec<Span>, last_seq: u64) -> (seqs: Vec<Span>)
    ensures
        seqs@ == seqs_or_all(seqs_needed@, last_seq),
{
    if seqs_needed.len() == 0 {
        let mut seqs: Vec<Span> = Vec::new();
        seqs.push(Span { start: 0, end: last_seq });
        assert(seqs@ =~= seqs_or_all(seqs_needed@, last_seq));
        seqs
    } else {
        seqs_needed
    }
}

/// How a version that is here in full is answered.
pub enum CurrentPlan {
    /// Nothing is left of the version: it is reported as empty.
    Empty,
    /// The changes of each of these ranges are sent, in this order.
    Ranges { seqs: Vec<Span>, last_seq: u64, ts: u64 },
}

/// Decides how a version is answered that is here in full. `row` is what the
/// bookkeeping holds of it: its last sequence number and its timestamp.
pub fn current_plan(
    row: Option<(Option<u64>, Option<u64>)>,
    seqs_needed: Vec<Span>,
) -> (plan: CurrentPlan)
    ensures
        match row {
            Some((Some(last), Some(time))) => plan matches CurrentPlan::Ranges {
                seqs,
                last_seq,
                ts,
            } && seqs@ == seqs_or_all(seqs_needed@, last) && last_seq == last && ts == time,
            _ => plan is Empty,
        },
{
    match row {
        Some((Some(last_seq), Some(ts))) => {
            let seqs = needed_seqs(seqs_needed, last_seq);
            CurrentPlan::Ranges { seqs, last_seq, ts }
        },
        _ => CurrentPlan::Empty,
    }
}

/// What comes next while a partial version is served.
#[derive(Clone, Copy, Debug, PartialEq, Eq, Structural)]
pub enum BufferedStep {
    /// Lock the bookkeeping of the actor and look up what is here of the
    /// version now; then `on_partial`.
    CheckPartial,
    /// With the lock still held, look up the last sequence number and the
    /// timestamp of the buffered range that holds these; then `on_buffered`.
    ReadBuffered(Span),
    /// Read the buffered changes of these sequence numbers, give the lock back
    /// and send them; then `on_sent`.
    SendBuffered { seqs: Span, last_seq: u64, ts: u64 },
    /// Everything that could be sent was sent.
    Done,
}

/// The part of a range that is both here and needed.
pub open spec fn effective(range: Span, needed: Span) -> Span {
    Span {
        start: if range.start >= needed.start {
            range.start
        } else {
            needed.start
        },
        end: if range.end <= needed.end {
            range.end
        } else {
            needed.end
        },
    }
}

fn effective_span(range: Span, needed: Span) -> (span: Span)
    ensures
        span == effective(range, needed),
{
    let start: u64 = if range.start >= needed.start { range.start } else { needed.start };
    let end: u64 = if range.end <= needed.end { range.end } else { needed.end };
    Span { start, end }
}

/// The ranges of `ranges` that overlap `needed`.
pub open spec fn overlapping(ranges: Seq<Span>, needed: Span) -> Seq<Span> {
    ranges.filter(|range: Span| range_set::overlaps(range, needed))
}

/// The state of serving a partial version.
#[verifier::ext_equal]
pub struct BufferedView {
    /// The ranges that were asked for.
    pub seqs_needed: Seq<Span>,
    /// Which of them is being served.
    pub at: int,
    /// The ranges that were here when serving began.
    pub snapshot: Seq<Span>,
    /// The ranges that were here at the last look.
    pub held: Seq<Span>,
    /// What is left of the range being served.
    pub needed: Span,
    /// The held ranges that overlap it and were not dealt with yet.
    pub pending: Seq<Span>,
    /// Where the last range that was sent since the last change of `held` ended.
    pub last_sent: Option<u64>,
    /// What comes next.
    pub step: BufferedStep,
}

impl BufferedView {
    /// The state in which serving goes on with the first range from number `at`
    /// on that overlaps anything in `snapshot`.
    pub open spec fn begin(seqs_needed: Seq<Span>, snapshot: Seq<Span>, at: int) -> BufferedView
        decreases seqs_needed.len() - at,
    {
        if 0 <= at < seqs_needed.len() {
            let needed = seqs_needed[at];
            let pending = overlapping(snapshot, needed);
            if pending.len() == 0 {
                BufferedView::begin(seqs_needed, snapshot, at + 1)
            } else {
                BufferedView {
                    seqs_needed,
                    at,
                    snapshot,
                    held: snapshot,
                    needed,
                    pending,
                    last_sent: None,
                    step: BufferedStep::CheckPartial,
                }
            }
        } else {
            BufferedView::done(seqs_needed, snapshot)
        }
    }

    /// The state in which nothing is left to do.
    pub open spec fn done(seqs_needed: Seq<Span>, snapshot: Seq<Span>) -> BufferedView {
        BufferedView {
            seqs_needed,
            at: seqs_needed.len() as int,
            snapshot,
            held: snapshot,
            needed: Span { start: 0, end: 0 },
            pending: Seq::empty(),
            last_sent: None,
            step: BufferedStep::Done,
        }
    }

    /// The state in which serving goes on with the next needed range.
    pub open spec fn next_needed(self) -> BufferedView {
        BufferedView::begin(self.seqs_needed, self.snapshot, self.at + 1)
    }

    /// The needed range after the held ranges changed: what was sent is no
    /// longer needed.
    pub open spec fn needed_again(self) -> Span {
        match self.last_sent {
            Some(sent) => Span { start: (sent + 1) as u64, end: self.needed.end },
            None => self.needed,
        }
    }

    /// The state after looking up what is here now.
    pub open spec fn after_partial(self, current: Option<Seq<Span>>) -> BufferedView {
        match current {
            None => BufferedView::done(self.seqs_needed, self.snapshot),
            Some(now) => if now != self.held {
                let needed = self.needed_again();
                let pending = overlapping(now, needed);
                if pending.len() == 0 {
                    self.next_needed()
                } else {
                    BufferedView {
                        held: now,
                        needed,
                        pending,
                        last_sent: None,
                        step: BufferedStep::CheckPartial,
                        ..self
                    }
                }
            } else {
                BufferedView {
                    step: BufferedStep::ReadBuffered(effective(self.pending[0], self.needed)),
                    ..self
                }
            },
        }
    }

    /// The state after looking up the buffered range.
    pub open spec fn after_buffered(self, row: Option<(u64, u64)>) -> BufferedView {
        match row {
            None => self.next_needed(),
            Some((last_seq, ts)) => BufferedView {
                step: BufferedStep::SendBuffered {
                    seqs: effective(self.pending[0], self.needed),
                    last_seq,
                    ts,
                },
                ..self
            },
        }
    }

    /// The state after the changes were sent.
    pub open spec fn after_sent(self) -> BufferedView {
        if self.pending.len() == 1 {
            self.next_needed()
        } else {
            BufferedView {
                pending: self.pending.drop_first(),
                last_sent: Some(effective(self.pending[0], self.needed).end),
                step: BufferedStep::CheckPartial,
                ..self
            }
        }
    }

    /// What holds of every state that serving can be in.
    pub open spec fn wf(self) -> bool {
        &&& range_set::canonical(self.snapshot)
        &&& range_set::canonical(self.held)
        &&& 0 <= self.at <= self.seqs_needed.len()
        &&& self.step !is Done ==> {
            &&& self.at < self.seqs_needed.len()
            &&& self.pending.len() > 0
            &&& range_set::canonical(self.pending)
            &&& forall|i: int|
                0 <= i < self.pending.len() ==> self.held.contains(#[trigger] self.pending[i])
                    && range_set::overlaps(self.pending[i], self.needed)
            &&& self.needed.end == self.seqs_needed[self.at].end
            &&& self.seqs_needed[self.at].valid() ==> self.seqs_needed[self.at].start
                <= self.needed.start <= self.needed.end
            &&& self.last_sent matches Some(sent) ==> {
                &&& sent < self.pending[0].start
                &&& self.seqs_needed[self.at].valid() ==> self.needed.start <= sent
                    < self.needed.end
            }
        }
        &&& self.step matches BufferedStep::ReadBuffered(seqs) ==> seqs == effective(
            self.pending[0],
            self.needed,
        )
        &&& self.step matches BufferedStep::SendBuffered { seqs, last_seq, ts } ==> seqs
            == effective(self.pending[0], self.needed)
    }
}

/// A partial version that is being served.
pub struct BufferedVersion {
    seqs_needed: Vec<Span>,
    at: usize,
    snapshot: RangeInclusiveSet<u64>,
    snapshot_ranges: Vec<Span>,
    held: Vec<Span>,
    needed: Span,
    overlaps: Vec<Span>,
    next: usize,
    last_sent: Option<u64>,
    step: BufferedStep,
}

impl View for BufferedVersion {
    type V = BufferedView;

    closed spec fn view(&self) -> BufferedView {
        BufferedView {
            seqs_needed: self.seqs_needed@,
            at: self.at as int,
            snapshot: self.snapshot_ranges@,
            held: self.held@,
            needed: self.needed,
            pending: self.overlaps@.skip(self.next as int),
            last_sent: self.last_sent,
            step: self.step,
        }
    }
}

impl BufferedVersion {
    /// What holds of every value.
    pub closed spec fn wf(self) -> bool {
        &&& self@.wf()
        &&& self.next <= self.overlaps.len()
        &&& self.snapshot_ranges@ == range_set::ranges_of(self.snapshot)
    }

    /// Begins to serve `partial`. With nothing in `seqs_needed` the whole
    /// version is served.
    pub fn new(partial: PartialVersion, seqs_needed: Vec<Span>) -> (this: BufferedVersion)
        ensures
            this.wf(),
            this@.wf(),
            this@ == BufferedView::begin(
                seqs_or_all(seqs_needed@, partial.last_seq),
                range_set::ranges_of(partial.seqs),
                0,
            ),
    {
        let snapshot_ranges = list_ranges(&partial.seqs);
        let held = list_ranges(&partial.seqs);
        let mut this = BufferedVersion {
            seqs_needed: needed_seqs(seqs_needed, partial.last_seq),
            at: 0,
            snapshot: partial.seqs,
            snapshot_ranges,
            held,
            needed: Span { start: 0, end: 0 },
            overlaps: Vec::new(),
            next: 0,
            last_sent: None,
            step: BufferedStep::Done,
        };
        this.serve_from(0);
        this
    }

    /// What comes next.
    pub fn step(&self) -> (step: BufferedStep)
        ensures
            step == self@.step,
    {
        self.step
    }

    fn serve_from(&mut self, first: usize)
        requires
            old(self).wf(),
            first <= old(self)@.seqs_needed.len(),
        ensures
            final(self).wf(),
            final(self)@.wf(),
            final(self)@ == BufferedView::begin(
                old(self)@.seqs_needed,
                old(self)@.snapshot,
                first as int,
            ),
    {
        let mut at: usize = first;
        while at < self.seqs_needed.len()
            invariant
                old(self).wf(),
                *self == *old(self),
                first <= at <= self.seqs_needed.len(),
                BufferedView::begin(self@.seqs_needed, self@.snapshot, first as int)
                    == BufferedView::begin(self@.seqs_needed, self@.snapshot, at as int),
            decreases self.seqs_needed.len() - at,
        {
            let needed = self.seqs_needed[at];
            let overlaps = overlapping_ranges(&self.snapshot, needed);
            if overlaps.len() > 0 {
                proof {
                    lemma_overlapping(self@.snapshot, needed);
                }
                self.at = at;
                self.held = self.snapshot_ranges.clone();
                self.needed = needed;
                self.overlaps = overlaps;
                self.next = 0;
                self.last_sent = None;
                self.step = BufferedStep::CheckPartial;
                assert(self.held@ =~= self.snapshot_ranges@);
                assert(self.overlaps@.skip(0) =~= self.overlaps@);
                return;
            }
            at = at + 1;
        }
        self.finish();
    }

    fn finish(&mut self)
        requires
            old(self).wf(),
        ensures
            final(self).wf(),
            final(self)@.wf(),
            final(self)@ == BufferedView::done(old(self)@.seqs_needed, old(self)@.snapshot),
    {
        self.at = self.seqs_needed.len();
        self.held = self.snapshot_ranges.clone();
        self.needed = Span { start: 0, end: 0 };
        self.overlaps = Vec::new();
        self.next = 0;
        self.last_sent = None;
        self.step = BufferedStep::Done;
        assert(self.held@ =~= self.snapshot_ranges@);
        assert(self.overlaps@.skip(0) =~= Seq::<Span>::empty());
    }

    /// Goes on after the look at what is here of the version now: `None` if it
    /// is no longer partial.
    pub fn on_partial(&mut self, current: Option<RangeInclusiveSet<u64>>)
        requires
            old(self).wf(),
            old(self)@.step is CheckPartial,
        ensures
            final(self).wf(),
            final(self)@.wf(),
            final(self)@ == old(self)@.after_partial(
                match current {
                    Some(seqs) => Some(range_set::ranges_of(seqs)),
                    None => None,
                },
            ),
    {
        match current {
            None => {
                self.finish();
            },
            Some(seqs) => {
                let now = list_ranges(&seqs);
                if same_ranges(&now, &self.held) {
                    let seqs = effective_span(self.overlaps[self.next], self.needed);
                    self.step = BufferedStep::ReadBuffered(seqs);
                } else {
                    let needed = match self.last_sent {
                        Some(sent) => Span { start: sent + 1, end: self.needed.end },
                        None => self.needed,
                    };
                    let overlaps = overlapping_ranges(&seqs, needed);
                    if overlaps.len() == 0 {
                        assert(self.at < self.seqs_needed.len());
                        self.serve_from(self.at + 1);
                    } else {
                        proof {
                            lemma_overlapping(now@, needed);
                        }
                        self.held = now;
                        self.needed = needed;
                        self.overlaps = overlaps;
                        self.next = 0;
                        self.last_sent = None;
                        self.step = BufferedStep::CheckPartial;
                        assert(self.overlaps@.skip(0) =~= self.overlaps@);
                    }
                }
            },
        }
    }

    /// Goes on after the look at the buffered range: its last sequence number
    /// and its timestamp, or `None` if it is gone.
    pub fn on_buffered(&mut self, row: Option<(u64, u64)>)
        requires
            old(self).wf(),
            old(self)@.step is ReadBuffered,
        ensures
            final(self).wf(),
            final(self)@.wf(),
            final(self)@ == old(self)@.after_buffered(row),
    {
        match row {
            None => {
                assert(self.at < self.seqs_needed.len());
                self.serve_from(self.at + 1);
            },
            Some((last_seq, ts)) => {
                let seqs = effective_span(self.overlaps[self.next], self.needed);
                self.step = BufferedStep::SendBuffered { seqs, last_seq, ts };
            },
        }
    }

    /// Goes on after the changes were sent.
    pub fn on_sent(&mut self)
        requires
            old(self).wf(),
            old(self)@.step is SendBuffered,
        ensures
            final(self).wf(),
            final(self)@.wf(),
            final(self)@ == old(self)@.after_sent(),
    {
        if self.overlaps.len() - self.next == 1 {
            assert(self.at < self.seqs_needed.len());
            self.serve_from(self.at + 1);
        } else {
            let sent = effective_span(self.overlaps[self.next], self.needed);
            self.last_sent = Some(sent.end);
            self.next = self.next + 1;
            self.step = BufferedStep::CheckPartial;
            assert(self@.pending =~= old(self)@.pending.drop_first());
            assert(self@.pending[0] == old(self)@.pending[1]);
        }
    }
}

/// How a known version is served.
pub enum KnownVersion {
    /// The version is here in full: look up its bookkeeping row, then
    /// `current_plan` with what is needed.
    Current { seqs_needed: Vec<Span> },
    /// The version is here in part.
    Buffered(BufferedVersion),
}

/// Begins to serve the sequence numbers `seqs_needed` of a known version, all of
/// them if none are named. `partial` says what is here if that is not everything.
pub fn handle_known_version(
    partial: Option<PartialVersion>,
    seqs_needed: Vec<Span>,
) -> (known: KnownVersion)
    ensures
        match partial {
            None => known == (KnownVersion::Current { seqs_needed }),
            Some(partial) => known matches KnownVersion::Buffered(buffered) && buffered.wf()
                && buffered@.wf() && buffered@ == BufferedView::begin(
                seqs_or_all(seqs_needed@, partial.last_seq),
                range_set::ranges_of(partial.seqs),
                0,
            ),
        },
{
    match partial {
        None => KnownVersion::Current { seqs_needed },
        Some(partial) => KnownVersion::Buffered(BufferedVersion::new(partial, seqs_needed)),
    }
}

/// What the ranges that overlap a query have in common.
proof fn lemma_overlapping(ranges: Seq<Span>, needed: Span)
    requires
        range_set::canonical(ranges),
    ensures
        range_set::canonical(overlapping(ranges, needed)),
        forall|i: int|
            0 <= i < overlapping(ranges, needed).len() ==> ranges.contains(
                #[trigger] overlapping(ranges, needed)[i],
            ) && range_set::overlaps(overlapping(ranges, needed)[i], needed),
{
    let keep = |range: Span| range_set::overlaps(range, needed);
    range_set::lemma_filter_canonical(ranges, keep);
    range_set::lemma_filter_elements(ranges, keep);
}

/// Going on with a later range leaves the ranges before it behind.
proof fn lemma_begin_at(seqs_needed: Seq<Span>, snapshot: Seq<Span>, at: int)
    requires
        0 <= at <= seqs_needed.len(),
    ensures
        at <= BufferedView::begin(seqs_needed, snapshot, at).at <= seqs_needed.len(),
    decreases seqs_needed.len() - at,
{
    if at < seqs_needed.len() {
        lemma_begin_at(seqs_needed, snapshot, at + 1);
    }
}

/// Only what is both here and asked for is sent: every number of a range that
/// is sent lies in one and the same held range, and in the range that the peer
/// asked for.
pub proof fn law_sent_is_held_and_asked(v: BufferedView)
    requires
        v.wf(),
        v.step is SendBuffered,
    ensures
        exists|i: int|
            0 <= i < v.held.len() && (#[trigger] v.held[i]).start <= v.step->seqs.start
                && v.step->seqs.end <= v.held[i].end,
        v.step->seqs.end <= v.seqs_needed[v.at].end,
        v.seqs_needed[v.at].valid() ==> v.seqs_needed[v.at].start <= v.step->seqs.start
            && v.step->seqs.valid(),
{
    assert(v.held.contains(v.pending[0]));
    let i = choose|i: int| 0 <= i < v.held.len() && v.held[i] == v.pending[0];
    assert(v.held[i].valid());
}

/// A range is sent only right after a look found the held ranges unchanged: if
/// they changed, or the version is no longer partial, nothing is sent before
/// the next look.
pub proof fn law_look_before_send(v: BufferedView, current: Option<Seq<Span>>)
    requires
        v.wf(),
        v.step is CheckPartial,
    ensures
        v.after_partial(current).step is ReadBuffered <==> current == Some(v.held),
        v.after_partial(current).step !is SendBuffered,
        current is None ==> v.after_partial(current).step is Done,
{
    lemma_begin_step(v.seqs_needed, v.snapshot, v.at + 1);
}

/// The state in which a needed range is begun waits for a look, or is the last
/// one.
proof fn lemma_begin_step(seqs_needed: Seq<Span>, snapshot: Seq<Span>, at: int)
    ensures
        BufferedView::begin(seqs_needed, snapshot, at).step is CheckPartial
            || BufferedView::begin(seqs_needed, snapshot, at).step is Done,
    decreases seqs_needed.len() - at,
{
    if 0 <= at < seqs_needed.len() {
        lemma_begin_step(seqs_needed, snapshot, at + 1);
    }
}

impl BufferedView {
    /// The lowest number of the range being served that can still be sent.
    pub open spec fn floor(self) -> int {
        match self.last_sent {
            Some(sent) => sent + 1,
            None => self.needed.start as int,
        }
    }
}

/// No sequence number is sent twice for one needed range. A range that is sent
/// starts at or after `floor` and moves it past its end, and as long as the
/// same needed range is served `floor` never goes back.
pub proof fn law_nothing_sent_twice(
    v: BufferedView,
    current: Option<Seq<Span>>,
    row: Option<(u64, u64)>,
)
    requires
        v.wf(),
        v.step !is Done,
        v.seqs_needed[v.at].valid(),
    ensures
        v.step is CheckPartial ==> {
            let after = v.after_partial(current);
            after.at == v.at ==> after.floor() >= v.floor()
        },
        v.step is ReadBuffered ==> {
            let after = v.after_buffered(row);
            after.at == v.at ==> after.floor() >= v.floor()
        },
        v.step matches BufferedStep::SendBuffered { seqs, last_seq, ts } ==> {
            let after = v.after_sent();
            &&& v.floor() <= seqs.start
            &&& after.at == v.at ==> after.floor() == seqs.end + 1
        },
{
    lemma_begin_at(v.seqs_needed, v.snapshot, v.at + 1);
    assert(v.pending[0].valid());
}

/// If nothing changes while a needed range is served, everything is sent that
/// is both here and needed: the parts of the overlapping ranges that are needed
/// hold exactly those numbers.
pub proof fn law_all_held_and_needed(held: Seq<Span>, needed: Span, x: int)
    ensures
        range_set::covers(held, x) && needed.has(x) <==> exists|i: int|
            0 <= i < overlapping(held, needed).len() && effective(
                #[trigger] overlapping(held, needed)[i],
                needed,
            ).has(x),
{
    let pending = overlapping(held, needed);
    let keep = |range: Span| range_set::overlaps(range, needed);
    range_set::lemma_filter_elements(held, keep);
    if range_set::covers(held, x) && needed.has(x) {
        let k = choose|k: int| 0 <= k < held.len() && (#[trigger] held[k]).has(x);
        assert(keep(held[k]));
        assert(pending.contains(held[k]));
        let i = choose|i: int| 0 <= i < pending.len() && pending[i] == held[k];
        assert(effective(pending[i], needed).has(x));
    }
    if exists|i: int| 0 <= i < pending.len() && effective(#[trigger] pending[i], needed).has(x) {
        let i = choose|i: int|
            0 <= i < pending.len() && effective(#[trigger] pending[i], needed).has(x);
        assert(keep(pending[i]));
        assert(held.contains(pending[i]));
        let k = choose|k: int| 0 <= k < held.len() && held[k] == pending[i];
        assert(held[k].has(x));
    }
}

impl BufferedView {
    /// The state after one more range was sent, if what is here did not change and `row`
    /// is what is known of the buffered range.
    pub open spec fn after_range(self, row: (u64, u64)) -> BufferedView {
        self.after_partial(Some(self.held)).after_buffered(Some(row)).after_sent()
    }

    /// The state after several more.
    pub open spec fn after_ranges(self, rows: Seq<(u64, u64)>) -> BufferedView
        decreases rows.len(),
    {
        if rows.len() == 0 {
            self
        } else {
            self.after_ranges(rows.drop_last()).after_range(rows.last())
        }
    }

    /// What is sent next, if what is here did not change and `row` is what is known of the
    /// buffered range.
    pub open spec fn sends(self, row: (u64, u64)) -> BufferedStep {
        self.after_partial(Some(self.held)).after_buffered(Some(row)).step
    }
}

proof fn lemma_after_ranges(v: BufferedView, rows: Seq<(u64, u64)>)
    requires
        v.step is CheckPartial,
        rows.len() < v.pending.len(),
    ensures
        v.after_ranges(rows) == (BufferedView {
            pending: v.pending.skip(rows.len() as int),
            last_sent: if rows.len() == 0 {
                v.last_sent
            } else {
                Some(effective(v.pending[rows.len() - 1], v.needed).end)
            },
            ..v
        }),
    decreases rows.len(),
{
    if rows.len() == 0 {
        assert(v.pending.skip(0) =~= v.pending);
    } else {
        lemma_after_ranges(v, rows.drop_last());
        let k = rows.len() - 1;
        assert(v.pending.skip(k)[0] == v.pending[k]);
        assert(v.pending.skip(k).drop_first() =~= v.pending.skip(k + 1));
    }
}

/// While what is here does not change, the parts that are needed of the overlapping ranges
/// are sent one after the other, each with what is known of it, and then serving goes on
/// with the next needed range.
pub proof fn law_range_is_served(v: BufferedView, rows: Seq<(u64, u64)>)
    requires
        v.wf(),
        v.step is CheckPartial,
        rows.len() == v.pending.len(),
    ensures
        forall|k: int|
            0 <= k < rows.len() ==> (#[trigger] v.after_ranges(rows.take(k))).sends(rows[k]) == (
            BufferedStep::SendBuffered {
                seqs: effective(v.pending[k], v.needed),
                last_seq: rows[k].0,
                ts: rows[k].1,
            }),
        v.after_ranges(rows) == v.next_needed(),
{
    assert forall|k: int| 0 <= k < rows.len() implies (#[trigger] v.after_ranges(
        rows.take(k),
    )).sends(rows[k]) == (BufferedStep::SendBuffered {
        seqs: effective(v.pending[k], v.needed),
        last_seq: rows[k].0,
        ts: rows[k].1,
    }) by {
        lemma_after_ranges(v, rows.take(k));
        assert(v.pending.skip(k)[0] == v.pending[k]);
    }
    let last = rows.len() - 1;
    lemma_after_ranges(v, rows.drop_last());
    assert(v.pending.skip(last).len() == 1);
}

/// What is asked for of a version: all of it, from the first sequence number to the last, if
/// nothing in particular is; else just that.
pub proof fn law_asked_for(seqs_needed: Seq<Span>, last_seq: u64, x: int)
    ensures
        seqs_needed.len() == 0 ==> (range_set::covers(seqs_or_all(seqs_needed, last_seq), x) <==> 0
            <= x <= last_seq),
        seqs_needed.len() > 0 ==> seqs_or_all(seqs_needed, last_seq) == seqs_needed,
{
    if seqs_needed.len() == 0 && 0 <= x <= last_seq {
        assert(seqs_or_all(seqs_needed, last_seq)[0].has(x));
    }
}

/// What is sent of a range is what it has in common with what is needed.
pub proof fn law_effective(range: Span, needed: Span, x: int)
    ensures
        effective(range, needed).has(x) <==> range.has(x) && needed.has(x),
{
}

/// Whether a held range and a needed one reach over each other.
pub open spec fn meet(range: Span, needed: Span) -> bool {
    range.end >= needed.start && range.start <= needed.end
}

/// Serving goes on with the first range from number `at` on that meets a held one. Those
/// that meet none are passed over, and it is done only if none is left that meets one.
pub proof fn law_goes_on_with_the_first_that_meets(
    seqs_needed: Seq<Span>,
    snapshot: Seq<Span>,
    at: int,
)
    requires
        0 <= at <= seqs_needed.len(),
    ensures
        ({
            let v = BufferedView::begin(seqs_needed, snapshot, at);
            &&& at <= v.at <= seqs_needed.len()
            &&& v.step is Done <==> v.at == seqs_needed.len()
            &&& v.step is Done || v.step is CheckPartial
            &&& v.seqs_needed == seqs_needed && v.snapshot == snapshot && v.held == snapshot
            &&& v.last_sent is None
            &&& forall|k: int, j: int|
                at <= k < v.at && 0 <= j < snapshot.len() ==> !meet(
                    #[trigger] snapshot[j],
                    #[trigger] seqs_needed[k],
                )
            &&& v.at < seqs_needed.len() ==> {
                &&& v.needed == seqs_needed[v.at]
                &&& exists|j: int|
                    0 <= j < snapshot.len() && meet(#[trigger] snapshot[j], seqs_needed[v.at])
                &&& v.pending == snapshot.filter(|range: Span| meet(range, seqs_needed[v.at]))
            }
        }),
    decreases seqs_needed.len() - at,
{
    if at < seqs_needed.len() {
        let needed = seqs_needed[at];
        let keep = |range: Span| range_set::overlaps(range, needed);
        let meets = |range: Span| meet(range, needed);
        assert(keep =~= meets);
        range_set::lemma_filter_elements(snapshot, keep);
        let pending = overlapping(snapshot, needed);
        if pending.len() == 0 {
            law_goes_on_with_the_first_that_meets(seqs_needed, snapshot, at + 1);
            let v = BufferedView::begin(seqs_needed, snapshot, at);
            assert forall|k: int, j: int| at <= k < v.at && 0 <= j < snapshot.len() implies !meet(
                #[trigger] snapshot[j],
                #[trigger] seqs_needed[k],
            ) by {
                if k == at && meet(snapshot[j], needed) {
                    assert(keep(snapshot[j]));
                    assert(pending.contains(snapshot[j]));
                }
            }
        } else {
            assert(snapshot.contains(pending[0]) && keep(pending[0]));
            let j = choose|j: int| 0 <= j < snapshot.len() && snapshot[j] == pending[0];
            assert(meet(snapshot[j], needed));
        }
    }
}

/// When a needed range is done with, because all of it was sent, because what was buffered of
/// it is gone, or because nothing is left of it that is here, serving goes on behind it:
/// with the first of the ranges that follow that meets one of those that were here in the
/// beginning.
pub proof fn law_goes_on_behind(v: BufferedView, current: Option<Seq<Span>>, k: int, j: int)
    requires
        v.wf(),
        v.step !is Done,
        v.at < k < v.seqs_needed.len(),
        0 <= j < v.snapshot.len(),
        meet(v.snapshot[j], v.seqs_needed[k]),
    ensures
        v.step is ReadBuffered ==> v.at < v.after_buffered(None).at <= k,
        v.step is SendBuffered && v.pending.len() == 1 ==> v.at < v.after_sent().at <= k,
        v.step is CheckPartial && current is Some ==> v.at <= v.after_partial(current).at <= k
            && v.after_partial(current).step !is Done,
{
    law_goes_on_with_the_first_that_meets(v.seqs_needed, v.snapshot, v.at + 1);
}

/// If what is here changes while a range is served, all of what is here now and needed, and
/// lies behind what was sent, is still to be sent, from the same needed range.
pub proof fn law_change_keeps_what_is_left(v: BufferedView, now: Seq<Span>, x: int)
    requires
        v.wf(),
        v.step is CheckPartial,
        v.seqs_needed[v.at].valid(),
        now != v.held,
    ensures
        range_set::covers(now, x) && v.needed.has(x) && x >= v.floor() ==> {
            let after = v.after_partial(Some(now));
            &&& after.at == v.at
            &&& after.held == now
            &&& exists|i: int|
                0 <= i < after.pending.len() && effective(
                    #[trigger] after.pending[i],
                    after.needed,
                ).has(x)
        },
{
    let needed = v.needed_again();
    law_all_held_and_needed(now, needed, x);
    if range_set::covers(now, x) && v.needed.has(x) && x >= v.floor() {
        let pending = overlapping(now, needed);
        assert(needed.has(x));
        let i = choose|i: int|
            0 <= i < pending.len() && effective(#[trigger] pending[i], needed).has(x);
        let after = v.after_partial(Some(now));
        assert(after.pending == pending && after.needed == needed);
        assert(effective(after.pending[i], after.needed).has(x));
    }
}

spec fn is_serving(v: BufferedView) -> bool {
    &&& v.step is CheckPartial
    &&& 0 <= v.at < v.seqs_needed.len()
    &&& v.held == v.snapshot
    &&& v.needed == v.seqs_needed[v.at]
    &&& v.pending.len() > 0
}

/// Whether a number is both held and needed by one of the ranges from number `at` on.
spec fn due_from(v: BufferedView, at: int, x: int) -> bool {
    range_set::covers(v.snapshot, x) && exists|j: int|
        at <= j < v.seqs_needed.len() && (#[trigger] v.seqs_needed[j]).has(x)
}

spec fn is_due(v: BufferedView, x: int) -> bool {
    v.step !is Done && (due_from(v, v.at + 1, x) || exists|i: int|
        0 <= i < v.pending.len() && effective(#[trigger] v.pending[i], v.needed).has(x))
}

proof fn lemma_due_at_begin(seqs_needed: Seq<Span>, snapshot: Seq<Span>, at: int, x: int)
    requires
        0 <= at <= seqs_needed.len(),
    ensures
        ({
            let v = BufferedView::begin(seqs_needed, snapshot, at);
            &&& is_due(v, x) <==> due_from(v, at, x)
            &&& v.step is Done || is_serving(v)
        }),
{
    let v = BufferedView::begin(seqs_needed, snapshot, at);
    law_goes_on_with_the_first_that_meets(seqs_needed, snapshot, at);
    if v.at < seqs_needed.len() {
        let meets = |range: Span| meet(range, v.needed);
        let keep = |range: Span| range_set::overlaps(range, v.needed);
        assert(keep =~= meets);
        assert(v.pending == overlapping(snapshot, v.needed));
        law_all_held_and_needed(snapshot, v.needed, x);
        range_set::lemma_filter_elements(snapshot, keep);
        let j = choose|j: int| 0 <= j < snapshot.len() && meet(#[trigger] snapshot[j], v.needed);
        assert(keep(snapshot[j]));
        assert(v.pending.contains(snapshot[j]));
    }
    if due_from(v, at, x) {
        let j = choose|j: int|
            at <= j < v.seqs_needed.len() && (#[trigger] v.seqs_needed[j]).has(x);
        let k = choose|k: int| 0 <= k < snapshot.len() && (#[trigger] snapshot[k]).has(x);
        assert(meet(snapshot[k], seqs_needed[j]));
        assert(v.at <= j);
        if j > v.at {
            assert(due_from(v, v.at + 1, x));
        }
    }
    if is_due(v, x) {
        if due_from(v, v.at + 1, x) {
            let j = choose|j: int|
                v.at + 1 <= j < v.seqs_needed.len() && (#[trigger] v.seqs_needed[j]).has(x);
            assert(v.seqs_needed[j].has(x));
        } else {
            assert(v.seqs_needed[v.at].has(x));
        }
    }
}

proof fn lemma_after_ranges_first(v: BufferedView, rows: Seq<(u64, u64)>)
    requires
        rows.len() > 0,
    ensures
        v.after_ranges(rows) == v.after_range(rows[0]).after_ranges(rows.drop_first()),
    decreases rows.len(),
{
    reveal_with_fuel(BufferedView::after_ranges, 2);
    if rows.len() == 1 {
        assert(rows.drop_last() =~= Seq::empty());
        assert(rows.drop_first() =~= Seq::empty());
    } else {
        lemma_after_ranges_first(v, rows.drop_last());
        assert(rows.drop_last().drop_first() =~= rows.drop_first().drop_last());
    }
}

impl BufferedView {
    /// The ranges that are sent, if what is here does not change and `rows` is what is known
    /// of the buffered ranges.
    pub open spec fn sent(self, rows: Seq<(u64, u64)>) -> Seq<BufferedStep> {
        Seq::new(rows.len(), |k: int| self.after_ranges(rows.take(k)).sends(rows[k]))
    }

    /// Whether serving goes on until `rows` is used up.
    pub open spec fn goes_on(self, rows: Seq<(u64, u64)>) -> bool {
        forall|k: int|
            0 <= k < rows.len() ==> (#[trigger] self.after_ranges(rows.take(k))).step is CheckPartial
    }
}

proof fn lemma_all_due_is_sent(v: BufferedView, rows: Seq<(u64, u64)>, x: int)
    requires
        v.step is Done || is_serving(v),
        v.goes_on(rows),
        v.after_ranges(rows).step is Done,
    ensures
        is_due(v, x) <==> exists|k: int|
            0 <= k < rows.len() && (#[trigger] v.sent(rows)[k])->SendBuffered_seqs.has(x),
        forall|k: int|
            0 <= k < rows.len() ==> (#[trigger] v.sent(rows)[k] matches BufferedStep::SendBuffered {
                seqs,
                last_seq,
                ts,
            } && last_seq == rows[k].0 && ts == rows[k].1),
    decreases rows.len(),
{
    assert(rows.len() > 0 ==> rows.take(0) =~= Seq::empty());
    if rows.len() > 0 {
        assert(v.after_ranges(rows.take(0)).step is CheckPartial);
        let next = v.after_range(rows[0]);
        let rest = rows.drop_first();
        lemma_after_ranges_first(v, rows);
        assert forall|k: int| 0 <= k < rest.len() implies (#[trigger] next.after_ranges(
            rest.take(k),
        )).step is CheckPartial by {
            assert(rows.take(k + 1).drop_first() =~= rest.take(k));
            lemma_after_ranges_first(v, rows.take(k + 1));
            assert(v.after_ranges(rows.take(k + 1)).step is CheckPartial);
        }
        let first = effective(v.pending[0], v.needed);
        if v.pending.len() == 1 {
            assert(next == BufferedView::begin(v.seqs_needed, v.snapshot, v.at + 1));
            lemma_due_at_begin(v.seqs_needed, v.snapshot, v.at + 1, x);
            law_goes_on_with_the_first_that_meets(v.seqs_needed, v.snapshot, v.at + 1);
        }
        lemma_all_due_is_sent(next, rest, x);
        let sent = v.sent(rows);
        let later = next.sent(rest);
        assert(sent[0] == v.sends(rows[0]));
        assert forall|k: int| 0 < k < rows.len() implies #[trigger] sent[k] == later[k - 1] by {
            assert(rows.take(k).drop_first() =~= rest.take(k - 1));
            lemma_after_ranges_first(v, rows.take(k));
            assert(rest[k - 1] == rows[k]);
        }
        if is_due(next, x) {
            let k = choose|k: int|
                0 <= k < rest.len() && (#[trigger] later[k])->SendBuffered_seqs.has(x);
            assert(sent[k + 1] == later[k]);
        }
        if exists|k: int| 0 <= k < rows.len() && (#[trigger] sent[k])->SendBuffered_seqs.has(x) {
            let k = choose|k: int|
                0 <= k < rows.len() && (#[trigger] sent[k])->SendBuffered_seqs.has(x);
            if k > 0 {
                assert(later[k - 1] == sent[k]);
            }
        }
        assert(is_due(v, x) <==> first.has(x) || is_due(next, x)) by {
            if v.pending.len() > 1 {
                assert(next.pending =~= v.pending.drop_first());
                assert(is_serving(next));
                if is_due(v, x) && !due_from(v, v.at + 1, x) {
                    let i = choose|i: int|
                        0 <= i < v.pending.len() && effective(
                            #[trigger] v.pending[i],
                            v.needed,
                        ).has(x);
                    if i > 0 {
                        assert(next.pending[i - 1] == v.pending[i]);
                    }
                }
                if is_due(next, x) && !due_from(next, next.at + 1, x) {
                    let i = choose|i: int|
                        0 <= i < next.pending.len() && effective(
                            #[trigger] next.pending[i],
                            next.needed,
                        ).has(x);
                    assert(v.pending[i + 1] == next.pending[i]);
                }
                if due_from(v, v.at + 1, x) {
                    assert(due_from(next, next.at + 1, x));
                }
                if due_from(next, next.at + 1, x) {
                    assert(due_from(v, v.at + 1, x));
                }
            } else {
                assert(due_from(next, v.at + 1, x) <==> due_from(v, v.at + 1, x));
            }
            if first.has(x) {
                assert(effective(v.pending[0], v.needed).has(x));
            }
        }
    }
}

/// If nothing changes while a version is served that is here in part, just the numbers are
/// sent that are both here and asked for: a run from the beginning to the end sends every
/// number that a held range and one of the ranges that were asked for have in common, and no
/// other. Each range goes with what is known of it.
pub proof fn law_all_that_is_asked_for_is_sent(
    seqs_needed: Seq<Span>,
    held: Seq<Span>,
    rows: Seq<(u64, u64)>,
    x: int,
)
    requires
        BufferedView::begin(seqs_needed, held, 0).goes_on(rows),
        BufferedView::begin(seqs_needed, held, 0).after_ranges(rows).step is Done,
    ensures
        range_set::covers(held, x) && range_set::covers(seqs_needed, x) <==> exists|k: int|
            0 <= k < rows.len() && (#[trigger] BufferedView::begin(seqs_needed, held, 0).sent(
                rows,
            )[k])->SendBuffered_seqs.has(x),
        forall|k: int|
            0 <= k < rows.len() ==> (#[trigger] BufferedView::begin(seqs_needed, held, 0).sent(
                rows,
            )[k] matches BufferedStep::SendBuffered { seqs, last_seq, ts } && last_seq == rows[k].0
                && ts == rows[k].1),
{
    let v = BufferedView::begin(seqs_needed, held, 0);
    lemma_due_at_begin(seqs_needed, held, 0, x);
    law_goes_on_with_the_first_that_meets(seqs_needed, held, 0);
    lemma_all_due_is_sent(v, rows, x);
    if range_set::covers(seqs_needed, x) {
        let j = choose|j: int| 0 <= j < seqs_needed.len() && (#[trigger] seqs_needed[j]).has(x);
        assert(v.seqs_needed[j].has(x));
    }
    if due_from(v, 0, x) {
        let j = choose|j: int| 0 <= j < v.seqs_needed.len() && (#[trigger] v.seqs_needed[j]).has(x);
        assert(seqs_needed[j].has(x));
    }
}

proof fn lemma_overlapping_few(ranges: Seq<Span>, needed: Span)
    ensures
        overlapping(ranges, needed).len() <= ranges.len(),
    decreases ranges.len(),
{
    reveal(Seq::filter);
    if ranges.len() > 0 {
        lemma_overlapping_few(ranges.drop_last(), needed);
    }
}

/// How many more ranges can be sent at most.
spec fn budget(v: BufferedView) -> int {
    if v.step is Done {
        0
    } else {
        v.pending.len() + (v.seqs_needed.len() - v.at - 1) * v.snapshot.len()
    }
}

proof fn lemma_budget_at_begin(seqs_needed: Seq<Span>, snapshot: Seq<Span>, at: int)
    requires
        0 <= at <= seqs_needed.len(),
    ensures
        budget(BufferedView::begin(seqs_needed, snapshot, at)) <= (seqs_needed.len() - at)
            * snapshot.len(),
{
    let v = BufferedView::begin(seqs_needed, snapshot, at);
    law_goes_on_with_the_first_that_meets(seqs_needed, snapshot, at);
    let n = snapshot.len() as int;
    let left = seqs_needed.len() - at;
    assert(left * n >= 0) by (nonlinear_arith)
        requires
            left >= 0,
            n >= 0,
    ;
    if v.at < seqs_needed.len() {
        let meets = |range: Span| meet(range, v.needed);
        let keep = |range: Span| range_set::overlaps(range, v.needed);
        assert(keep =~= meets);
        lemma_overlapping_few(snapshot, v.needed);
        let behind = seqs_needed.len() - v.at - 1;
        assert(n + behind * n <= left * n) by (nonlinear_arith)
            requires
                behind + 1 <= left,
                n >= 0,
        ;
    }
}

proof fn lemma_run_ends(v: BufferedView, rows: Seq<(u64, u64)>) -> (m: int)
    requires
        v.step is Done || is_serving(v),
        rows.len() >= budget(v),
    ensures
        0 <= m <= rows.len(),
        v.goes_on(rows.take(m)),
        v.after_ranges(rows.take(m)).step is Done,
    decreases rows.len(),
{
    if v.step is Done {
        assert(rows.take(0) =~= Seq::empty());
        0
    } else {
        let behind = v.seqs_needed.len() - v.at - 1;
        let n = v.snapshot.len() as int;
        assert(behind * n >= 0) by (nonlinear_arith)
            requires
                behind >= 0,
                n >= 0,
        ;
        let next = v.after_range(rows[0]);
        let rest = rows.drop_first();
        if v.pending.len() == 1 {
            lemma_budget_at_begin(v.seqs_needed, v.snapshot, v.at + 1);
            lemma_due_at_begin(v.seqs_needed, v.snapshot, v.at + 1, 0);
        }
        let k = lemma_run_ends(next, rest);
        let m = k + 1;
        assert(rows.take(m).drop_first() =~= rest.take(k));
        lemma_after_ranges_first(v, rows.take(m));
        assert forall|i: int| 0 <= i < m implies (#[trigger] v.after_ranges(
            rows.take(m).take(i),
        )).step is CheckPartial by {
            if i == 0 {
                assert(rows.take(m).take(0) =~= Seq::empty());
            } else {
                assert(rows.take(m).take(i).drop_first() =~= rest.take(k).take(i - 1));
                lemma_after_ranges_first(v, rows.take(m).take(i));
                assert(next.after_ranges(rest.take(k).take(i - 1)).step is CheckPartial);
            }
        }
        m
    }
}

/// If nothing changes serving ends, after no more ranges were sent than there are held ranges
/// for each range that was asked for.
pub proof fn law_serving_ends(seqs_needed: Seq<Span>, held: Seq<Span>, rows: Seq<(u64, u64)>)
    requires
        rows.len() >= seqs_needed.len() * held.len(),
    ensures
        exists|m: int|
            0 <= m <= rows.len() && #[trigger] BufferedView::begin(seqs_needed, held, 0).goes_on(
                rows.take(m),
            ) && BufferedView::begin(seqs_needed, held, 0).after_ranges(rows.take(m)).step is Done,
{
    let v = BufferedView::begin(seqs_needed, held, 0);
    lemma_budget_at_begin(seqs_needed, held, 0);
    lemma_due_at_begin(seqs_needed, held, 0, 0);
    let m = lemma_run_ends(v, rows);
    assert(v.goes_on(rows.take(m)));
}

} // verus!

//! Turning the requests of a peer into jobs, each of which serves one version.

use std::collections::HashMap;

use rangemap::RangeInclusiveSet;
use vstd::prelude::*;

use crate::known::PartialVersion;
use crate::message::{self, ActorId, SyncNeed, SyncRequest};
use crate::range_set::{self, clone_set, set_has};
use crate::span::Span;

verus! {

broadcast use vstd::std_specs::hash::group_hash_axioms;

/// The needs of a request, with sequences.
pub open spec fn request_view(request: Seq<(ActorId, Vec<SyncNeed>)>) -> Seq<
    (ActorId, Seq<message::NeedView>),
> {
    Seq::new(request.len(), |i: int| (request[i].0, message::needs_view(request[i].1@)))
}

/// The needs of some requests, one request after the other.
pub open spec fn requests_view(requests: Seq<SyncRequest>) -> Seq<
    (ActorId, Seq<message::NeedView>),
>
    decreases requests.len(),
{
    if requests.len() == 0 {
        Seq::empty()
    } else {
        requests_view(requests.drop_last()) + request_view(requests.last()@)
    }
}

/// Groups needs by actor. Only neighbours are put together.
pub open spec fn grouped(entries: Seq<(ActorId, Seq<message::NeedView>)>) -> Seq<
    (ActorId, Seq<message::NeedView>),
>
    decreases entries.len(),
{
    if entries.len() == 0 {
        Seq::empty()
    } else {
        add_to_group(grouped(entries.drop_last()), entries.last())
    }
}

/// Appends needs to the last group if that is about the same actor, and starts a
/// new group if it is not.
pub open spec fn add_to_group(
    groups: Seq<(ActorId, Seq<message::NeedView>)>,
    entry: (ActorId, Seq<message::NeedView>),
) -> Seq<(ActorId, Seq<message::NeedView>)> {
    if groups.len() > 0 && groups.last().0 == entry.0 {
        groups.drop_last().push((entry.0, groups.last().1 + entry.1))
    } else {
        groups.push(entry)
    }
}

/// All needs of some groups, in their order, each with its actor.
pub open spec fn flat(entries: Seq<(ActorId, Seq<message::NeedView>)>) -> Seq<
    (ActorId, message::NeedView),
>
    decreases entries.len(),
{
    if entries.len() == 0 {
        Seq::empty()
    } else {
        flat(entries.drop_last()) + Seq::new(
            entries.last().1.len(),
            |i: int| (entries.last().0, entries.last().1[i]),
        )
    }
}

fn add_needs(groups: &mut Vec<(ActorId, Vec<SyncNeed>)>, actor_id: ActorId, needs: Vec<SyncNeed>)
    ensures
        request_view(final(groups)@) == add_to_group(
            request_view(old(groups)@),
            (actor_id, message::needs_view(needs@)),
        ),
{
    let ghost before = request_view(groups@);
    let ghost entry = (actor_id, message::needs_view(needs@));
    match groups.pop() {
        Some((last_id, last_needs)) => {
            assert(before.last() == (last_id, message::needs_view(last_needs@)));
            if last_id == actor_id {
                let mut all = last_needs;
                let mut more = needs;
                all.append(&mut more);
                assert(message::needs_view(all@) =~= before.last().1 + entry.1);
                groups.push((actor_id, all));
                assert(request_view(groups@) =~= add_to_group(before, entry));
            } else {
                groups.push((last_id, last_needs));
                groups.push((actor_id, needs));
                assert(request_view(groups@) =~= before.push(entry));
            }
        },
        None => {
            groups.push((actor_id, needs));
            assert(request_view(groups@) =~= before.push(entry));
        },
    }
}

/// Groups the needs of some requests by actor. Only neighbours are put together.
pub fn group_requests(requests: Vec<SyncRequest>) -> (groups: Vec<(ActorId, Vec<SyncNeed>)>)
    ensures
        request_view(groups@) == grouped(requests_view(requests@)),
{
    let mut groups: Vec<(ActorId, Vec<SyncNeed>)> = Vec::new();
    let ghost all = requests@;
    assert(request_view(groups@) =~= grouped(requests_view(all.take(0))));
    for request in outer: requests
        invariant
            outer.seq() == all,
            request_view(groups@) == grouped(requests_view(all.take(outer.index()))),
    {
        let ghost done = requests_view(all.take(outer.index()));
        let ghost entries = request_view(request@);
        let ghost this = request@;
        proof {
            assert(this == all[outer.index()]@);
            assert(all.take(outer.index() + 1).drop_last() =~= all.take(outer.index()));
            assert(done + entries.take(0) =~= done);
        }
        for entry in inner: request
            invariant
                inner.seq() == this,
                entries == request_view(this),
                request_view(groups@) == grouped(done + entries.take(inner.index())),
        {
            let ghost shown = (entry.0, message::needs_view(entry.1@));
            proof {
                assert(shown == entries[inner.index()]);
                let next = done + entries.take(inner.index() + 1);
                assert(next.drop_last() =~= done + entries.take(inner.index()));
                assert(next.last() == shown);
            }
            add_needs(&mut groups, entry.0, entry.1);
        }
        assert(entries.take(entries.len() as int) =~= entries);
    }
    assert(all.take(all.len() as int) =~= all);
    groups
}

/// Grouping loses no need, adds none and keeps their order; and no two
/// neighbouring groups are about the same actor.
pub proof fn law_grouping(entries: Seq<(ActorId, Seq<message::NeedView>)>)
    ensures
        flat(grouped(entries)) == flat(entries),
        forall|i: int|
            0 <= i < grouped(entries).len() - 1 ==> (#[trigger] grouped(entries)[i]).0 != grouped(
                entries,
            )[i + 1].0,
    decreases entries.len(),
{
    if entries.len() > 0 {
        law_grouping(entries.drop_last());
        let groups = grouped(entries.drop_last());
        let entry = entries.last();
        let all = grouped(entries);
        if groups.len() > 0 && groups.last().0 == entry.0 {
            assert(all.drop_last() =~= groups.drop_last());
            let joined = groups.last().1 + entry.1;
            assert(all.last() == (entry.0, joined));
            assert(Seq::new(joined.len(), |i: int| (entry.0, joined[i])) =~= Seq::new(
                groups.last().1.len(),
                |i: int| (groups.last().0, groups.last().1[i]),
            ) + Seq::new(entry.1.len(), |i: int| (entry.0, entry.1[i])));
            assert(flat(all) =~= flat(entries));
        } else {
            assert(all.drop_last() =~= groups);
        }
    }
}

/// A partial version, with a sequence.
#[verifier::ext_equal]
pub struct PartialView {
    pub seqs: Seq<Span>,
    pub last_seq: u64,
}

/// What a version is here in part.
pub open spec fn partial_view(partial: PartialVersion) -> PartialView {
    PartialView { seqs: range_set::ranges_of(partial.seqs), last_seq: partial.last_seq }
}

/// What is known of the versions of an actor.
pub struct BookedVersions {
    /// The versions that are here, in full or in part.
    pub known: RangeInclusiveSet<u64>,
    /// Those that are here in part.
    pub partials: HashMap<u64, PartialVersion>,
}

impl BookedVersions {
    /// Whether a version is here, in full or in part.
    pub open spec fn knows(self, version: int) -> bool {
        range_set::covers(range_set::ranges_of(self.known), version)
    }

    /// What is here of a version, if that is not everything.
    pub open spec fn partial(self, version: u64) -> Option<PartialView> {
        if self.partials@.contains_key(version) {
            Some(partial_view(self.partials@[version]))
        } else {
            None
        }
    }

    fn contains_version(&self, version: u64) -> (contains: bool)
        ensures
            contains == self.knows(version as int),
    {
        set_has(&self.known, version)
    }

    fn get_partial(&self, version: u64) -> (partial: Option<PartialVersion>)
        ensures
            match partial {
                Some(partial) => self.partial(version) == Some(partial_view(partial)),
                None => self.partial(version) is None,
            },
            partial is Some <==> self.partials@.contains_key(version),
            partial matches Some(held) ==> range_set::ranges_of(held.seqs) == range_set::ranges_of(
                self.partials@[version].seqs,
            ) && held.last_seq == self.partials@[version].last_seq,
    {
        match self.partials.get(&version) {
            Some(partial) => Some(
                PartialVersion { seqs: clone_set(&partial.seqs), last_seq: partial.last_seq },
            ),
            None => None,
        }
    }
}

/// One version to serve.
pub struct Job {
    pub version: u64,
    /// What is here of it, if that is not everything.
    pub partial: Option<PartialVersion>,
    /// What is needed of it; everything if this is empty.
    pub seqs_needed: Vec<Span>,
}

/// Whether a job is for a version that is known, with what is here of it: the ranges and
/// the last sequence number that are booked for it, if it is booked as here in part, and
/// nothing if it is not.
pub open spec fn carries_what_is_here(booked: BookedVersions, job: Job) -> bool {
    &&& range_set::covers(range_set::ranges_of(booked.known), job.version as int)
    &&& job.partial is Some <==> booked.partials@.contains_key(job.version)
    &&& job.partial matches Some(held) ==> range_set::ranges_of(held.seqs) == range_set::ranges_of(
        booked.partials@[job.version].seqs,
    ) && held.last_seq == booked.partials@[job.version].last_seq
}

/// `Job` with sequences.
#[verifier::ext_equal]
pub struct JobView {
    pub version: u64,
    pub partial: Option<PartialView>,
    pub seqs_needed: Seq<Span>,
}

impl View for Job {
    type V = JobView;

    open spec fn view(&self) -> JobView {
        JobView {
            version: self.version,
            partial: match self.partial {
                Some(partial) => Some(partial_view(partial)),
                None => None,
            },
            seqs_needed: self.seqs_needed@,
        }
    }
}

/// The views of some jobs.
pub open spec fn jobs_view(jobs: Seq<Job>) -> Seq<JobView> {
    Seq::new(jobs.len(), |i: int| jobs[i]@)
}

/// The jobs for the known versions from `start` up to but without `end`.
pub open spec fn version_jobs(booked: BookedVersions, start: int, end: int) -> Seq<JobView>
    decreases end - start,
{
    if start >= end {
        Seq::empty()
    } else if booked.knows(end - 1) {
        version_jobs(booked, start, end - 1).push(
            JobView {
                version: (end - 1) as u64,
                partial: booked.partial((end - 1) as u64),
                seqs_needed: Seq::empty(),
            },
        )
    } else {
        version_jobs(booked, start, end - 1)
    }
}

/// The jobs for the whole versions among some needs, in their order.
pub open spec fn full_jobs(booked: BookedVersions, needs: Seq<message::NeedView>) -> Seq<JobView>
    decreases needs.len(),
{
    if needs.len() == 0 {
        Seq::empty()
    } else {
        full_jobs(booked, needs.drop_last()) + match needs.last() {
            message::NeedView::Full { versions } => version_jobs(
                booked,
                versions.start as int,
                versions.end + 1,
            ),
            message::NeedView::Partial { version, seqs } => Seq::empty(),
        }
    }
}

/// The jobs for the partial versions among some needs, in their order.
pub open spec fn partial_jobs(booked: BookedVersions, needs: Seq<message::NeedView>) -> Seq<
    JobView,
>
    decreases needs.len(),
{
    if needs.len() == 0 {
        Seq::empty()
    } else {
        let before = partial_jobs(booked, needs.drop_last());
        match needs.last() {
            message::NeedView::Full { versions } => before,
            message::NeedView::Partial { version, seqs } => if booked.knows(version as int) {
                before.push(
                    JobView { version, partial: booked.partial(version), seqs_needed: seqs },
                )
            } else {
                before
            },
        }
    }
}

fn push_versions(booked: &BookedVersions, versions: Span, jobs: &mut Vec<Job>)
    ensures
        jobs_view(final(jobs)@) == jobs_view(old(jobs)@) + version_jobs(
            *booked,
            versions.start as int,
            versions.end + 1,
        ),
{
    if versions.start > versions.end {
        assert(jobs_view(jobs@) =~= jobs_view(jobs@) + Seq::empty());
        return;
    }
    let mut version: u64 = versions.start;
    assert(jobs_view(jobs@) =~= jobs_view(jobs@) + version_jobs(
        *booked,
        versions.start as int,
        version as int,
    ));
    loop
        invariant_except_break
            versions.start <= version <= versions.end,
            jobs_view(jobs@) == jobs_view(old(jobs)@) + version_jobs(
                *booked,
                versions.start as int,
                version as int,
            ),
        ensures
            jobs_view(jobs@) == jobs_view(old(jobs)@) + version_jobs(
                *booked,
                versions.start as int,
                versions.end + 1,
            ),
        decreases versions.end - version,
    {
        let ghost before = jobs_view(jobs@);
        if booked.contains_version(version) {
            let partial = booked.get_partial(version);
            let job = Job { version, partial, seqs_needed: Vec::new() };
            let ghost shown = job@;
            jobs.push(job);
            proof {
                assert(shown.seqs_needed =~= Seq::empty());
                assert(jobs_view(jobs@) =~= before.push(shown));
                assert(jobs_view(jobs@) =~= jobs_view(old(jobs)@) + version_jobs(
                    *booked,
                    versions.start as int,
                    version + 1,
                ));
            }
        }
        if version == versions.end {
            break;
        }
        version = version + 1;
    }
}

/// The jobs that serve the needs of a peer: whole versions first, then parts of
/// versions. What is not known here gives no job.
pub fn plan_jobs(booked: &BookedVersions, needs: Vec<SyncNeed>) -> (jobs: Vec<Job>)
    ensures
        jobs_view(jobs@) == full_jobs(*booked, message::needs_view(needs@)) + partial_jobs(
            *booked,
            message::needs_view(needs@),
        ),
        forall|i: int|
            0 <= i < jobs.len() ==> carries_what_is_here(*booked, #[trigger] jobs@[i]),
{
    let mut full: Vec<Job> = Vec::new();
    let mut partial: Vec<Job> = Vec::new();
    let ghost all = needs@;
    let ghost views = message::needs_view(all);
    assert(jobs_view(full@) =~= full_jobs(*booked, views.take(0)));
    assert(jobs_view(partial@) =~= partial_jobs(*booked, views.take(0)));
    for need in iter: needs
        invariant
            iter.seq() == all,
            views == message::needs_view(all),
            jobs_view(full@) == full_jobs(*booked, views.take(iter.index())),
            jobs_view(partial@) == partial_jobs(*booked, views.take(iter.index())),
    {
        let ghost view = need@;
        let ghost next = views.take(iter.index() + 1);
        let ghost full_before = jobs_view(full@);
        let ghost before = jobs_view(partial@);
        proof {
            assert(view == views[iter.index()]);
            assert(next.drop_last() =~= views.take(iter.index()));
            assert(next.last() == view);
        }
        match need {
            SyncNeed::Full { versions } => {
                push_versions(booked, versions, &mut full);
                assert(jobs_view(full@) =~= full_jobs(*booked, next));
                assert(jobs_view(partial@) =~= partial_jobs(*booked, next));
            },
            SyncNeed::Partial { version, seqs } => {
                assert(view == message::NeedView::Partial { version, seqs: seqs@ });
                if booked.contains_version(version) {
                    let held = booked.get_partial(version);
                    let job = Job { version, partial: held, seqs_needed: seqs };
                    let ghost shown = job@;
                    partial.push(job);
                    assert(jobs_view(partial@) =~= before.push(shown));
                }
                assert(full_jobs(*booked, next) =~= full_before + Seq::empty());
                assert(jobs_view(full@) =~= full_jobs(*booked, next));
                assert(jobs_view(partial@) =~= partial_jobs(*booked, next));
            },
        }
    }
    assert(views.take(views.len() as int) =~= views);
    let ghost first = jobs_view(full@);
    let ghost second = jobs_view(partial@);
    full.append(&mut partial);
    assert(jobs_view(full@) =~= first + second);
    proof {
        assert forall|i: int| 0 <= i < full.len() implies carries_what_is_here(
            *booked,
            #[trigger] full@[i],
        ) by {
            let shown = jobs_view(full@)[i];
            assert(shown == full@[i]@);
            law_jobs_carry_what_is_here(*booked, views, i);
            law_jobs_carry_what_is_here(*booked, views, i - first.len());
        }
    }
    full
}

/// The jobs that serve the needs of a peer for versions of one actor. Of an actor that is
/// not known here nothing is served.
pub fn plan_actor_jobs(booked: &Option<BookedVersions>, needs: Vec<SyncNeed>) -> (jobs: Vec<Job>)
    ensures
        jobs_view(jobs@) == (match booked {
            Some(booked) => full_jobs(*booked, message::needs_view(needs@)) + partial_jobs(
                *booked,
                message::needs_view(needs@),
            ),
            None => Seq::empty(),
        }),
        booked is None ==> jobs.len() == 0,
        booked matches Some(versions) ==> forall|i: int|
            0 <= i < jobs.len() ==> carries_what_is_here(*versions, #[trigger] jobs@[i]),
{
    match booked {
        Some(booked) => plan_jobs(booked, needs),
        None => {
            let jobs: Vec<Job> = Vec::new();
            assert(jobs_view(jobs@) =~= Seq::empty());
            jobs
        },
    }
}

/// What follows when a job is done.
#[derive(Debug, PartialEq, Eq)]
pub enum JobStep<E> {
    /// Go on with the others.
    GoOn,
    /// The serving is over, with this result.
    End(Result<(), E>),
}

/// Decides what follows when a job is done, or failed. `None` stands for no job being
/// left: then all were done. The first one that fails ends the serving.
pub fn after_job<E>(outcome: Option<Result<(), E>>) -> (step: JobStep<E>)
    ensures
        step == (match outcome {
            Some(Ok(())) => JobStep::GoOn,
            Some(Err(error)) => JobStep::End(Err(error)),
            None => JobStep::End(Ok(())),
        }),
{
    match outcome {
        Some(Ok(())) => JobStep::GoOn,
        Some(Err(error)) => JobStep::End(Err(error)),
        None => JobStep::End(Ok(())),
    }
}

/// Of a range of versions just those are served that are known here, each once.
pub proof fn law_known_versions_served(booked: BookedVersions, start: int, end: int)
    requires
        0 <= start,
        end <= u64::MAX + 1,
    ensures
        forall|i: int|
            0 <= i < version_jobs(booked, start, end).len() ==> {
                let job = #[trigger] version_jobs(booked, start, end)[i];
                &&& start <= job.version < end
                &&& booked.knows(job.version as int)
                &&& job.partial == booked.partial(job.version)
                &&& job.seqs_needed.len() == 0
            },
        forall|i: int, j: int|
            0 <= i < j < version_jobs(booked, start, end).len() ==> (#[trigger] version_jobs(
                booked,
                start,
                end,
            )[i]).version < (#[trigger] version_jobs(booked, start, end)[j]).version,
        forall|version: u64|
            start <= version < end && #[trigger] booked.knows(version as int) ==> exists|i: int|
                0 <= i < version_jobs(booked, start, end).len() && (#[trigger] version_jobs(
                    booked,
                    start,
                    end,
                )[i]).version == version,
    decreases end - start,
{
    if start < end {
        law_known_versions_served(booked, start, end - 1);
        let before = version_jobs(booked, start, end - 1);
        let jobs = version_jobs(booked, start, end);
        assert forall|version: u64| start <= version < end && #[trigger]
            booked.knows(version as int) implies exists|i: int|
            0 <= i < jobs.len() && (#[trigger] jobs[i]).version == version by {
            if version < end - 1 {
                let i = choose|i: int|
                    0 <= i < before.len() && (#[trigger] before[i]).version == version;
                assert(jobs[i].version == version);
            } else {
                assert(jobs[jobs.len() - 1].version == version);
            }
        }
    }
}

/// Every job is for a version that is known, and carries what is booked of it.
pub proof fn law_jobs_carry_what_is_here(
    booked: BookedVersions,
    needs: Seq<message::NeedView>,
    i: int,
)
    ensures
        0 <= i < full_jobs(booked, needs).len() ==> {
            let job = full_jobs(booked, needs)[i];
            &&& range_set::covers(range_set::ranges_of(booked.known), job.version as int)
            &&& job.partial is Some <==> booked.partials@.contains_key(job.version)
            &&& job.partial matches Some(held) ==> held.seqs == range_set::ranges_of(
                booked.partials@[job.version].seqs,
            ) && held.last_seq == booked.partials@[job.version].last_seq
            &&& job.seqs_needed.len() == 0
        },
        0 <= i < partial_jobs(booked, needs).len() ==> {
            let job = partial_jobs(booked, needs)[i];
            &&& range_set::covers(range_set::ranges_of(booked.known), job.version as int)
            &&& job.partial is Some <==> booked.partials@.contains_key(job.version)
            &&& job.partial matches Some(held) ==> held.seqs == range_set::ranges_of(
                booked.partials@[job.version].seqs,
            ) && held.last_seq == booked.partials@[job.version].last_seq
        },
{
    law_jobs_answer_needs(booked, needs, i);
    if 0 <= i < full_jobs(booked, needs).len() {
        lemma_full_jobs_whole(booked, needs, i);
    }
}

proof fn lemma_full_jobs_whole(booked: BookedVersions, needs: Seq<message::NeedView>, i: int)
    requires
        0 <= i < full_jobs(booked, needs).len(),
    ensures
        full_jobs(booked, needs)[i].seqs_needed.len() == 0,
    decreases needs.len(),
{
    let before = full_jobs(booked, needs.drop_last());
    if i < before.len() {
        lemma_full_jobs_whole(booked, needs.drop_last(), i);
    } else if let message::NeedView::Full { versions } = needs.last() {
        law_known_versions_served(booked, versions.start as int, versions.end + 1);
    }
}

/// Needs are served one after the other. A need for versions gives a job for each of them
/// that is known, from the lowest to the highest; one for parts of a version gives one job,
/// if that version is known.
pub proof fn law_jobs_by_need(
    booked: BookedVersions,
    a: Seq<message::NeedView>,
    b: Seq<message::NeedView>,
    need: message::NeedView,
)
    ensures
        full_jobs(booked, a + b) == full_jobs(booked, a) + full_jobs(booked, b),
        partial_jobs(booked, a + b) == partial_jobs(booked, a) + partial_jobs(booked, b),
        match need {
            message::NeedView::Full { versions } => {
                let jobs = full_jobs(booked, seq![need]);
                &&& partial_jobs(booked, seq![need]).len() == 0
                &&& forall|i: int|
                    0 <= i < jobs.len() ==> versions.start <= (#[trigger] jobs[i]).version
                        <= versions.end
                &&& forall|i: int, j: int|
                    0 <= i < j < jobs.len() ==> (#[trigger] jobs[i]).version < (
                    #[trigger] jobs[j]).version
                &&& forall|version: u64|
                    versions.start <= version <= versions.end && #[trigger] range_set::covers(
                        range_set::ranges_of(booked.known),
                        version as int,
                    ) ==> exists|i: int|
                        0 <= i < jobs.len() && (#[trigger] jobs[i]).version == version
            },
            message::NeedView::Partial { version, seqs } => {
                let jobs = partial_jobs(booked, seq![need]);
                &&& full_jobs(booked, seq![need]).len() == 0
                &&& jobs.len() == (if range_set::covers(
                    range_set::ranges_of(booked.known),
                    version as int,
                ) {
                    1int
                } else {
                    0
                })
                &&& jobs.len() == 1 ==> jobs[0].version == version && jobs[0].seqs_needed == seqs
            },
        },
    decreases b.len(),
{
    if b.len() > 0 {
        law_jobs_by_need(booked, a, b.drop_last(), need);
        assert((a + b).drop_last() =~= a + b.drop_last());
        assert(full_jobs(booked, a + b) =~= full_jobs(booked, a) + full_jobs(booked, b));
        assert(partial_jobs(booked, a + b) =~= partial_jobs(booked, a) + partial_jobs(booked, b));
    } else {
        assert(a + b =~= a);
        assert(full_jobs(booked, a) + full_jobs(booked, b) =~= full_jobs(booked, a));
        assert(partial_jobs(booked, a) + partial_jobs(booked, b) =~= partial_jobs(booked, a));
    }
    assert(seq![need].drop_last() =~= Seq::empty());
    reveal_with_fuel(full_jobs, 2);
    reveal_with_fuel(partial_jobs, 2);
    if let message::NeedView::Full { versions } = need {
        law_known_versions_served(booked, versions.start as int, versions.end + 1);
        let jobs = full_jobs(booked, seq![need]);
        assert(jobs =~= version_jobs(booked, versions.start as int, versions.end + 1));
        assert forall|version: u64|
            versions.start <= version <= versions.end && #[trigger] range_set::covers(
                range_set::ranges_of(booked.known),
                version as int,
            ) implies exists|i: int|
            0 <= i < jobs.len() && (#[trigger] jobs[i]).version == version by {
            assert(booked.knows(version as int));
        }
    }
}

/// Requests are looked at one after the other, and so are the needs of each.
pub proof fn law_requests_in_order(a: Seq<SyncRequest>, b: Seq<SyncRequest>, request: SyncRequest)
    ensures
        requests_view(a + b) == requests_view(a) + requests_view(b),
        requests_view(seq![request]).len() == request.len(),
        forall|i: int|
            0 <= i < request.len() ==> (#[trigger] requests_view(seq![request])[i]).0
                == request@[i].0 && requests_view(seq![request])[i].1 == message::needs_view(
                request@[i].1@,
            ),
    decreases b.len(),
{
    if b.len() > 0 {
        law_requests_in_order(a, b.drop_last(), request);
        assert((a + b).drop_last() =~= a + b.drop_last());
        assert(requests_view(a + b) =~= requests_view(a) + requests_view(b));
    } else {
        assert(a + b =~= a);
        assert(requests_view(a) + requests_view(b) =~= requests_view(a));
    }
    assert(seq![request].drop_last() =~= Seq::empty());
    reveal_with_fuel(requests_view, 2);
    assert(requests_view(seq![request]) =~= request_view(request@));
}

/// Whether a job answers a need: it is for a version that is known and that the need is
/// about, with what is here of it, for as much of it as is needed.
pub open spec fn answers(booked: BookedVersions, need: message::NeedView, job: JobView) -> bool {
    &&& range_set::covers(range_set::ranges_of(booked.known), job.version as int)
    &&& job.partial is Some <==> booked.partials@.contains_key(job.version)
    &&& job.partial matches Some(held) ==> held.seqs == range_set::ranges_of(
        booked.partials@[job.version].seqs,
    ) && held.last_seq == booked.partials@[job.version].last_seq
    &&& match need {
        message::NeedView::Full { versions } => versions.has(job.version as int)
            && job.seqs_needed.len() == 0,
        message::NeedView::Partial { version, seqs } => job.version == version && job.seqs_needed
            == seqs,
    }
}

/// Whether a job answers one of some needs.
pub open spec fn answers_one(
    booked: BookedVersions,
    needs: Seq<message::NeedView>,
    job: JobView,
) -> bool {
    exists|i: int| 0 <= i < needs.len() && answers(booked, #[trigger] needs[i], job)
}

proof fn lemma_answers_more(
    booked: BookedVersions,
    needs: Seq<message::NeedView>,
    job: JobView,
)
    requires
        needs.len() > 0,
        answers_one(booked, needs.drop_last(), job),
    ensures
        answers_one(booked, needs, job),
{
    let i = choose|i: int|
        0 <= i < needs.drop_last().len() && answers(booked, #[trigger] needs.drop_last()[i], job);
    assert(needs[i] == needs.drop_last()[i]);
}

/// Every job answers a need: nothing is served that was not asked for or is not known.
pub proof fn law_jobs_answer_needs(booked: BookedVersions, needs: Seq<message::NeedView>, i: int)
    ensures
        0 <= i < full_jobs(booked, needs).len() ==> answers_one(
            booked,
            needs,
            full_jobs(booked, needs)[i],
        ),
        0 <= i < partial_jobs(booked, needs).len() ==> answers_one(
            booked,
            needs,
            partial_jobs(booked, needs)[i],
        ),
    decreases needs.len(),
{
    if needs.len() > 0 {
        let init = needs.drop_last();
        let last = needs[needs.len() - 1];
        law_jobs_answer_needs(booked, init, i);
        let full_before = full_jobs(booked, init);
        let partial_before = partial_jobs(booked, init);
        if 0 <= i < full_jobs(booked, needs).len() {
            let job = full_jobs(booked, needs)[i];
            if i < full_before.len() {
                assert(job == full_before[i]);
                lemma_answers_more(booked, needs, job);
            } else if let message::NeedView::Full { versions } = last {
                let (start, end) = (versions.start as int, versions.end + 1);
                law_known_versions_served(booked, start, end);
                assert(job == version_jobs(booked, start, end)[i - full_before.len()]);
                assert(answers(booked, last, job));
            }
        }
        if 0 <= i < partial_jobs(booked, needs).len() {
            let job = partial_jobs(booked, needs)[i];
            if i < partial_before.len() {
                assert(job == partial_before[i]);
                lemma_answers_more(booked, needs, job);
            } else {
                assert(answers(booked, last, job));
            }
        }
    }
}

/// Every need for a known version is answered: by a job of its own for each version of a
/// need for whole ones, and by a job for just the parts that are needed otherwise.
pub proof fn law_needs_are_answered(
    booked: BookedVersions,
    needs: Seq<message::NeedView>,
    i: int,
    version: u64,
)
    requires
        0 <= i < needs.len(),
        booked.knows(version as int),
    ensures
        match needs[i] {
            message::NeedView::Full { versions } => versions.has(version as int)
                ==> full_jobs(booked, needs).contains(
                (JobView { version, partial: booked.partial(version), seqs_needed: Seq::empty() }),
            ),
            message::NeedView::Partial { version: of, seqs } => of == version ==> partial_jobs(
                booked,
                needs,
            ).contains(
                (JobView { version, partial: booked.partial(version), seqs_needed: seqs }),
            ),
        },
    decreases needs.len(),
{
    let init = needs.drop_last();
    let full = full_jobs(booked, needs);
    let partial = partial_jobs(booked, needs);
    let full_before = full_jobs(booked, init);
    let partial_before = partial_jobs(booked, init);
    let job = JobView {
        version,
        partial: booked.partial(version),
        seqs_needed: match needs[i] {
            message::NeedView::Full { versions } => Seq::empty(),
            message::NeedView::Partial { version: of, seqs } => seqs,
        },
    };
    if i < init.len() {
        law_needs_are_answered(booked, init, i, version);
        assert(init[i] == needs[i]);
        if full_before.contains(job) {
            let k = choose|k: int| 0 <= k < full_before.len() && full_before[k] == job;
            assert(full[k] == job);
        }
        if partial_before.contains(job) {
            let k = choose|k: int| 0 <= k < partial_before.len() && partial_before[k] == job;
            assert(partial[k] == job);
        }
    } else {
        match needs[i] {
            message::NeedView::Full { versions } => {
                if versions.has(version as int) {
                    let (start, end) = (versions.start as int, versions.end + 1);
                    law_known_versions_served(booked, start, end);
                    let jobs = version_jobs(booked, start, end);
                    let k = choose|k: int|
                        0 <= k < jobs.len() && (#[trigger] jobs[k]).version == version;
                    assert(jobs[k] =~= job);
                    assert(full[full_before.len() + k] == job);
                }
            },
            message::NeedView::Partial { version: of, seqs } => {
                if of == version {
                    assert(partial[partial.len() - 1] == job);
                }
            },
        }
    }
}

} // verus!

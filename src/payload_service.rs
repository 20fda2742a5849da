//! The registry of payload-building jobs and the handling of the commands
//! that clients send to it.
//!
//! Jobs and the generator that creates them are supplied by the node through
//! the `PayloadJob` and `PayloadJobGenerator` traits. Each implementation
//! states, in the traits' `may_*` relations, what its methods can return;
//! the contracts here say which job or generator was asked, with what, and
//! what the service did with every answer those relations admit.
use vstd::prelude::*;

verus! {

/// Identifier of a payload, derived from its attributes.
#[derive(Clone, Copy, Debug, PartialEq, Eq, Structural)]
pub struct PayloadId {
    pub value: u64,
}

/// How a job is asked to resolve its payload.
#[derive(Clone, Copy, Debug, PartialEq, Eq, Structural)]
pub enum PayloadKind {
    /// Return the best payload built so far, even an empty one.
    Earliest,
    /// Wait for a payload that is being built to finish.
    WaitForPending,
}

/// A job's verdict after it resolved: keep building or be dropped.
#[derive(Clone, Copy, Debug, PartialEq, Eq, Structural)]
pub enum KeepPayloadJobAlive {
    Yes,
    No,
}

/// What polling a job once gives.
#[derive(Debug)]
pub enum JobPoll<E> {
    /// The job is still building.
    Pending,
    /// The job has finished.
    Finished,
    /// The job failed.
    Failed(E),
}

/// A job that builds a payload, improving it each time it is polled.
///
/// Each method's result is one that the job's own `may_*` relation admits:
/// an implementation states there what its methods can return, and the
/// service's contracts say which job was asked and what it answered.
pub trait PayloadJob: Sized {
    type Attributes;
    type BuiltPayload;
    type Error;
    /// What resolving hands out: the payload, once it is ready.
    type ResolveFuture;

    /// `r` is an outcome that polling this job may give, leaving the job as
    /// `after`.
    spec fn may_poll_to(&self, r: JobPoll<Self::Error>, after: Self) -> bool;

    /// `r` is an answer this job may give when asked for its best payload.
    spec fn may_offer_best(&self, r: Result<Self::BuiltPayload, Self::Error>) -> bool;

    /// `r` is an answer this job may give when asked for its attributes.
    spec fn may_report_attributes(&self, r: Result<Self::Attributes, Self::Error>) -> bool;

    /// `r` is what this job may hand out when resolved with `kind`.
    spec fn may_resolve(
        &self,
        kind: PayloadKind,
        r: (Self::ResolveFuture, KeepPayloadJobAlive),
    ) -> bool;

    /// Drives the job forward once.
    fn poll_job(&mut self) -> (r: JobPoll<Self::Error>)
        ensures
            old(self).may_poll_to(r, *final(self)),
    ;

    /// The best payload built so far.
    fn best_payload(&self) -> (r: Result<Self::BuiltPayload, Self::Error>)
        ensures
            self.may_offer_best(r),
    ;

    /// The attributes the job was created with.
    fn payload_attributes(&self) -> (r: Result<Self::Attributes, Self::Error>)
        ensures
            self.may_report_attributes(r),
    ;

    /// Resolves the job, saying whether it should keep running.
    fn resolve_kind(&mut self, kind: PayloadKind) -> (r: (Self::ResolveFuture, KeepPayloadJobAlive))
        ensures
            old(self).may_resolve(kind, r),
    ;
}

/// Creates payload jobs and is told of changes to the canonical chain.
pub trait PayloadJobGenerator {
    type Job: PayloadJob;
    /// A notification that the canonical chain changed.
    type ChainEvent;

    /// `r` is what this generator may answer when asked for a job for
    /// `attributes`.
    spec fn may_create(
        &self,
        attributes: <Self::Job as PayloadJob>::Attributes,
        r: Result<Self::Job, <Self::Job as PayloadJob>::Error>,
    ) -> bool;

    /// Creates a job for the given attributes.
    fn new_payload_job(
        &mut self,
        attributes: &<Self::Job as PayloadJob>::Attributes,
    ) -> (r: Result<Self::Job, <Self::Job as PayloadJob>::Error>)
        ensures
            old(self).may_create(*attributes, r),
    ;

    /// Takes note of a change to the canonical chain.
    fn on_new_state(&mut self, event: Self::ChainEvent);
}

/// A call that the service made to its generator.
pub ghost enum GeneratorCall {
    NewState,
    NewJob(PayloadId),
}

/// The outcome of resolving a job.
pub struct Resolution<F> {
    /// The payload, once it is ready.
    pub future: F,
    /// Whether the job stays in the registry.
    pub keep_alive: KeepPayloadJobAlive,
}

/// The answer to a request to start building a payload.
pub struct StartOutcome<A, E> {
    /// The payload id, or the generator's error.
    pub reply: Result<PayloadId, E>,
    /// The attributes of a job that was created, to be announced to
    /// subscribers.
    pub announce: Option<A>,
}

/// What a request to start building the payload `id` does: an active id is
/// answered with itself and nothing changes; otherwise the generator is asked
/// for a job, which joins the registry if it was created.
pub open spec fn start_effect<A, E>(
    old_ids: Seq<PayloadId>,
    old_calls: Seq<GeneratorCall>,
    new_ids: Seq<PayloadId>,
    new_calls: Seq<GeneratorCall>,
    id: PayloadId,
    attributes: A,
    out: StartOutcome<A, E>,
) -> bool {
    if old_ids.contains(id) {
        &&& out.reply == Ok::<PayloadId, E>(id)
        &&& out.announce.is_none()
        &&& new_ids == old_ids
        &&& new_calls == old_calls
    } else {
        &&& new_calls == old_calls.push(GeneratorCall::NewJob(id))
        &&& match out.reply {
            Ok(r) => r == id && new_ids == old_ids.push(id) && out.announce == Some(attributes),
            Err(_) => new_ids == old_ids && out.announce.is_none(),
        }
    }
}

/// What resolving the job `id` does: `None` and no change where no such job
/// is active; otherwise the job stays if its verdict is to keep running, and
/// is removed, with no other, if it is to stop.
pub open spec fn resolve_effect<F>(
    old_ids: Seq<PayloadId>,
    new_ids: Seq<PayloadId>,
    id: PayloadId,
    r: Option<Resolution<F>>,
) -> bool {
    match r {
        None => !old_ids.contains(id) && new_ids == old_ids,
        Some(res) => {
            &&& old_ids.contains(id)
            &&& res.keep_alive == KeepPayloadJobAlive::Yes ==> new_ids == old_ids
            &&& res.keep_alive == KeepPayloadJobAlive::No ==> {
                &&& !new_ids.contains(id)
                &&& new_ids.len() == old_ids.len() - 1
                &&& forall|x: PayloadId| #[trigger]
                    new_ids.contains(x) <==> (old_ids.contains(x) && x != id)
            }
        },
    }
}

/// Appending an id that is not there keeps the ids distinct.
pub proof fn lemma_push_fresh_id(s: Seq<PayloadId>, id: PayloadId)
    requires
        s.no_duplicates(),
        !s.contains(id),
    ensures
        s.push(id).no_duplicates(),
{
    let t = s.push(id);
    assert forall|a: int, b: int| 0 <= a < t.len() && 0 <= b < t.len() && a != b implies t[a]
        != t[b] by {
        if a == s.len() {
            assert(t[b] == s[b]);
        } else if b == s.len() {
            assert(t[a] == s[a]);
        }
    }
}

/// Removing the element at `i` by moving the last one into its place keeps
/// the others, and no other.
pub proof fn lemma_swap_remove_ids(s: Seq<PayloadId>, i: int)
    requires
        s.no_duplicates(),
        0 <= i < s.len(),
    ensures
        ({
            let t = s.update(i, s.last()).drop_last();
            &&& t.no_duplicates()
            &&& t.len() == s.len() - 1
            &&& !t.contains(s[i])
            &&& forall|x: PayloadId| t.contains(x) <==> (s.contains(x) && x != s[i])
        }),
{
    let t = s.update(i, s.last()).drop_last();
    let n = s.len() - 1;
    assert forall|j: int| 0 <= j < t.len() implies t[j] == s[if j == i { n } else { j }] by {}
    assert forall|x: PayloadId| t.contains(x) <==> (s.contains(x) && x != s[i]) by {
        if t.contains(x) {
            let j = choose|j: int| 0 <= j < t.len() && t[j] == x;
            assert(t[j] == s[if j == i { n } else { j }]);
        }
        if s.contains(x) && x != s[i] {
            let k = choose|k: int| 0 <= k < s.len() && s[k] == x;
            if k == n {
                if i < n {
                    assert(t[i] == x);
                } else {
                    assert(false);
                }
            } else {
                assert(t[k] == x);
            }
        }
    }
    assert(t.no_duplicates()) by {
        assert forall|a: int, b: int|
            0 <= a < t.len() && 0 <= b < t.len() && a != b implies t[a] != t[b] by {
            assert(t[a] == s[if a == i { n } else { a }]);
            assert(t[b] == s[if b == i { n } else { b }]);
        }
    }
}

/// The outcome of polling one job.
#[derive(Debug)]
pub struct JobReport<E> {
    pub id: PayloadId,
    pub outcome: JobPoll<E>,
}

/// Some report says that the job `id` is still building.
pub open spec fn reported_pending<E>(reports: Seq<JobReport<E>>, id: PayloadId) -> bool {
    exists|k: int| 0 <= k < reports.len() && #[trigger] reports[k].id == id && reports[k].outcome is Pending
}

/// A command from a client of the service.
pub enum ServiceCommand<A> {
    /// Start building the payload with this id and these attributes.
    BuildNewPayload(PayloadId, A),
    /// Get the best payload built so far.
    BestPayload(PayloadId),
    /// Get the attributes of a payload.
    PayloadAttributes(PayloadId),
    /// Resolve a payload.
    Resolve(PayloadId, PayloadKind),
    /// Subscribe to the events of the service.
    Subscribe,
}

/// The answer to one command, of the command's own kind.
pub enum CommandReply<A, P, E, F> {
    BuildNewPayload(StartOutcome<A, E>),
    BestPayload(Option<Result<P, E>>),
    PayloadAttributes(Option<Result<A, E>>),
    Resolve(Option<Resolution<F>>),
    Subscribe,
}

/// `command` asks to start building the payload `id`.
pub open spec fn starts<A>(command: ServiceCommand<A>, id: PayloadId) -> bool {
    match command {
        ServiceCommand::BuildNewPayload(i, _) => i == id,
        _ => false,
    }
}

/// The reply announces a job that was created.
pub open spec fn created_job<A, P, E, F>(reply: CommandReply<A, P, E, F>) -> bool {
    match reply {
        CommandReply::BuildNewPayload(out) => out.announce is Some,
        _ => false,
    }
}

/// Between `before` and `after` the generator was told of `n` chain events
/// first, and was asked for new jobs only after them.
pub open spec fn events_before_jobs(
    before: Seq<GeneratorCall>,
    after: Seq<GeneratorCall>,
    n: int,
) -> bool {
    &&& after.len() >= before.len() + n
    &&& after.take(before.len() as int) == before
    &&& forall|j: int| before.len() <= j < before.len() + n ==> #[trigger] after[j] is NewState
    &&& forall|j: int| before.len() + n <= j < after.len() ==> #[trigger] after[j] is NewJob
}

/// What one wake-up of the service produced.
pub struct StepOutcome<A, P, E, F> {
    /// The outcome of polling each job.
    pub reports: Vec<JobReport<E>>,
    /// One reply for each command, in the order of the commands.
    pub replies: Vec<CommandReply<A, P, E, F>>,
    /// Whether a job was created: the service then runs again before it
    /// waits, so that the new job is polled.
    pub new_job: bool,
}

/// Starting the same payload twice creates one job: the second request is
/// answered with the same id, leaves the registry as the first one left it,
/// and announces nothing. The first one announced the job exactly when it
/// created it.
pub proof fn lemma_idempotent_start<A, E>(
    ids0: Seq<PayloadId>,
    calls0: Seq<GeneratorCall>,
    ids1: Seq<PayloadId>,
    calls1: Seq<GeneratorCall>,
    ids2: Seq<PayloadId>,
    calls2: Seq<GeneratorCall>,
    id: PayloadId,
    attributes: A,
    first: StartOutcome<A, E>,
    second: StartOutcome<A, E>,
)
    requires
        start_effect(ids0, calls0, ids1, calls1, id, attributes, first),
        start_effect(ids1, calls1, ids2, calls2, id, attributes, second),
        first.reply is Ok,
    ensures
        first.reply == Ok::<PayloadId, E>(id),
        second.reply == Ok::<PayloadId, E>(id),
        second.announce.is_none(),
        ids2 == ids1,
        calls2 == calls1,
        ids1.contains(id),
        first.announce.is_some() <==> !ids0.contains(id),
        !ids0.contains(id) ==> ids1 == ids0.push(id),
        ids0.contains(id) ==> ids1 == ids0,
{
    if !ids0.contains(id) {
        assert(ids1[ids0.len() as int] == id);
    }
}

/// A job that resolving stopped is gone: through any number of later
/// wake-ups whose commands do not start it again, the registry holds no job
/// with its id, so asking for its best payload or attributes gives `None`.
/// `registries[0]` is the registry right after the resolve and
/// `registries[t]` the one after wake-up `t`, which answered `commands[t - 1]`
/// and, as `poll_step` ensures, added no id that none of them started.
pub proof fn lemma_resolved_job_stays_absent<A, F>(
    before: Seq<PayloadId>,
    id: PayloadId,
    r: Option<Resolution<F>>,
    registries: Seq<Seq<PayloadId>>,
    commands: Seq<Seq<ServiceCommand<A>>>,
)
    requires
        registries.len() == commands.len() + 1,
        resolve_effect(before, registries[0], id, r),
        r is Some && r->Some_0.keep_alive == KeepPayloadJobAlive::No,
        forall|t: int, x: PayloadId|
            0 < t < registries.len() && #[trigger] registries[t].contains(x) ==> registries[t
                - 1].contains(x) || exists|k: int|
                0 <= k < commands[t - 1].len() && #[trigger] starts(commands[t - 1][k], x),
        forall|t: int, k: int|
            0 <= t < commands.len() && 0 <= k < commands[t].len() ==> !#[trigger] starts(
                commands[t][k],
                id,
            ),
    ensures
        forall|t: int| 0 <= t < registries.len() ==> !#[trigger] registries[t].contains(id),
    decreases registries.len(),
{
    if registries.len() > 1 {
        let n = registries.len() - 1;
        let regs = registries.take(n as int);
        let cmds = commands.take(n - 1);
        assert forall|t: int, x: PayloadId|
            0 < t < regs.len() && #[trigger] regs[t].contains(x) implies regs[t - 1].contains(x)
                || exists|k: int| 0 <= k < cmds[t - 1].len() && #[trigger] starts(cmds[t - 1][k], x) by {
            assert(regs[t] == registries[t]);
            assert(regs[t - 1] == registries[t - 1]);
            assert(cmds[t - 1] == commands[t - 1]);
            assert(registries[t].contains(x));
        }
        assert forall|t: int, k: int| 0 <= t < cmds.len() && 0 <= k < cmds[t].len() implies !#[trigger] starts(
            cmds[t][k],
            id,
        ) by {
            assert(cmds[t] == commands[t]);
        }
        lemma_resolved_job_stays_absent(
            before,
            id,
            r,
            registries.take(n as int),
            commands.take(n - 1),
        );
        assert forall|t: int| 0 <= t < registries.len() implies !#[trigger] registries[t].contains(
            id,
        ) by {
            if t < n {
                assert(registries.take(n as int)[t] == registries[t]);
            } else {
                assert(registries.take(n as int)[t - 1] == registries[t - 1]);
                if registries[t].contains(id) {
                    assert(registries[t - 1].contains(id) || exists|k: int|
                        0 <= k < commands[t - 1].len() && #[trigger] starts(commands[t - 1][k], id));
                }
            }
        }
    }
}

/// Drives payload jobs and answers the commands of clients.
pub struct PayloadBuilderService<G: PayloadJobGenerator> {
    generator: G,
    payload_jobs: Vec<(G::Job, PayloadId)>,
    calls: Ghost<Seq<GeneratorCall>>,
}

impl<G: PayloadJobGenerator> PayloadBuilderService<G> {
    /// The active jobs with their ids, in the order they are stored.
    pub closed spec fn entries(&self) -> Seq<(G::Job, PayloadId)> {
        self.payload_jobs@
    }

    /// The generator, as it is now.
    pub closed spec fn generator_state(&self) -> G {
        self.generator
    }

    /// The ids of the active jobs, in the order they are stored.
    pub open spec fn job_ids(&self) -> Seq<PayloadId> {
        self.entries().map_values(|p: (G::Job, PayloadId)| p.1)
    }

    /// The position of the first job with this id.
    pub open spec fn job_index(&self, id: PayloadId) -> int {
        choose|i: int|
            0 <= i < self.job_ids().len() && self.job_ids()[i] == id && forall|j: int|
                0 <= j < i ==> self.job_ids()[j] != id
    }

    /// The first job with this id.
    pub open spec fn job_of(&self, id: PayloadId) -> G::Job {
        self.entries()[self.job_index(id)].0
    }

    proof fn lemma_job_index(&self, id: PayloadId, i: int)
        requires
            0 <= i < self.job_ids().len(),
            self.job_ids()[i] == id,
            forall|j: int| 0 <= j < i ==> self.job_ids()[j] != id,
        ensures
            self.job_index(id) == i,
            self.job_of(id) == self.payload_jobs@[i].0,
    {
        let k = self.job_index(id);
        assert(0 <= k < self.job_ids().len() && self.job_ids()[k] == id);
        if k < i {
            assert(self.job_ids()[k] != id);
        } else if i < k {
            assert(self.job_ids()[i] != id);
        }
    }

    /// The calls made to the generator so far, oldest first.
    pub closed spec fn generator_calls(&self) -> Seq<GeneratorCall> {
        self.calls@
    }

    /// No two active jobs share an id.
    pub open spec fn wf(&self) -> bool {
        self.job_ids().no_duplicates()
    }

    /// Whether a job with this id is active.
    pub open spec fn has_job(&self, id: PayloadId) -> bool {
        self.job_ids().contains(id)
    }

    /// Polling `job` may give `r`, whatever it leaves of the job.
    pub open spec fn polls_to(job: G::Job, r: JobPoll<<G::Job as PayloadJob>::Error>) -> bool {
        exists|after: G::Job| #[trigger] job.may_poll_to(r, after)
    }

    /// The entry `e` is one that a job pass over `self` kept: a job whose
    /// report `k` says it is still building, under the id it was polled
    /// under, as that poll left it.
    pub open spec fn kept_by_poll(
        &self,
        reports: Seq<JobReport<<G::Job as PayloadJob>::Error>>,
        e: (G::Job, PayloadId),
    ) -> bool {
        exists|k: int|
            0 <= k < reports.len() && #[trigger] reports[k].id == e.1 && reports[k].outcome is Pending
                && self.entries()[self.entries().len() - 1 - k].0.may_poll_to(reports[k].outcome, e.0)
    }

    /// `r` answers a request for the best payload of `id`: `None` where no
    /// such job is active, else what the first job with that id offered.
    pub open spec fn answers_best(
        &self,
        id: PayloadId,
        r: Option<Result<<G::Job as PayloadJob>::BuiltPayload, <G::Job as PayloadJob>::Error>>,
    ) -> bool {
        match r {
            None => !self.has_job(id),
            Some(p) => self.has_job(id) && self.job_of(id).may_offer_best(p),
        }
    }

    /// `r` answers a request for the attributes of `id`: `None` where no
    /// such job is active, else what the first job with that id reported.
    pub open spec fn answers_attributes(
        &self,
        id: PayloadId,
        r: Option<Result<<G::Job as PayloadJob>::Attributes, <G::Job as PayloadJob>::Error>>,
    ) -> bool {
        match r {
            None => !self.has_job(id),
            Some(a) => self.has_job(id) && self.job_of(id).may_report_attributes(a),
        }
    }

    /// What resolving `id` with `kind` does to the service: see
    /// `resolve_effect`; the generator and its calls are untouched, and the
    /// job that was asked is the first one with that id.
    pub open spec fn resolve_step(
        &self,
        after: Self,
        id: PayloadId,
        kind: PayloadKind,
        r: Option<Resolution<<G::Job as PayloadJob>::ResolveFuture>>,
    ) -> bool {
        &&& resolve_effect(self.job_ids(), after.job_ids(), id, r)
        &&& after.generator_calls() == self.generator_calls()
        &&& after.generator_state() == self.generator_state()
        &&& r is None ==> after == *self
        &&& r matches Some(res) ==> self.job_of(id).may_resolve(kind, (res.future, res.keep_alive))
        &&& (r is Some && r->Some_0.keep_alive == KeepPayloadJobAlive::Yes) ==> (
        after.entries().len() == self.entries().len() && after.entries()[self.job_index(id)].1 == id
            && forall|j: int|
            0 <= j < self.entries().len() && j != self.job_index(id) ==> #[trigger] after.entries()[j]
                == self.entries()[j])
        &&& (r is Some && r->Some_0.keep_alive == KeepPayloadJobAlive::No) ==> after.entries()
            == self.entries().update(self.job_index(id), self.entries().last()).drop_last()
    }

    /// What a request to start `id` with `attributes` does to the service:
    /// see `start_effect`. An active id leaves the service as it was;
    /// otherwise the generator was asked for a job for exactly these
    /// attributes, and the job it created, if any, joined the registry last.
    pub open spec fn start_step(
        &self,
        after: Self,
        id: PayloadId,
        attributes: <G::Job as PayloadJob>::Attributes,
        out: StartOutcome<<G::Job as PayloadJob>::Attributes, <G::Job as PayloadJob>::Error>,
    ) -> bool {
        &&& start_effect(
            self.job_ids(),
            self.generator_calls(),
            after.job_ids(),
            after.generator_calls(),
            id,
            attributes,
            out,
        )
        &&& self.has_job(id) ==> after == *self
        &&& !self.has_job(id) ==> match out.reply {
            Ok(_) => {
                &&& after.entries() == self.entries().push(after.entries().last())
                &&& self.generator_state().may_create(attributes, Ok(after.entries().last().0))
            },
            Err(e) => {
                &&& after.entries() == self.entries()
                &&& self.generator_state().may_create(attributes, Err(e))
            },
        }
    }

    /// What answering `command` with `reply` does to the service, command by
    /// command: a start as `start_step`, a resolve as `resolve_step`, and the
    /// queries and subscriptions leave the service as it was, the queries
    /// answered from the first job with the id.
    pub open spec fn command_effect(
        &self,
        after: Self,
        command: ServiceCommand<<G::Job as PayloadJob>::Attributes>,
        reply: CommandReply<
            <G::Job as PayloadJob>::Attributes,
            <G::Job as PayloadJob>::BuiltPayload,
            <G::Job as PayloadJob>::Error,
            <G::Job as PayloadJob>::ResolveFuture,
        >,
    ) -> bool {
        match command {
            ServiceCommand::BuildNewPayload(id, attributes) => match reply {
                CommandReply::BuildNewPayload(out) => self.start_step(after, id, attributes, out),
                _ => false,
            },
            ServiceCommand::BestPayload(id) => match reply {
                CommandReply::BestPayload(p) => after == *self && self.answers_best(id, p),
                _ => false,
            },
            ServiceCommand::PayloadAttributes(id) => match reply {
                CommandReply::PayloadAttributes(a) => after == *self && self.answers_attributes(id, a),
                _ => false,
            },
            ServiceCommand::Resolve(id, kind) => match reply {
                CommandReply::Resolve(r) => self.resolve_step(after, id, kind, r),
                _ => false,
            },
            ServiceCommand::Subscribe => reply is Subscribe && after == *self,
        }
    }

    /// `states` traces one wake-up from `self` to `after`: the first state
    /// follows the chain events and the job pass (the generator told of
    /// `n_events` events, and exactly the jobs reported pending left), and
    /// each next state follows from answering one command, in order.
    pub open spec fn step_trace(
        &self,
        after: Self,
        n_events: nat,
        reports: Seq<JobReport<<G::Job as PayloadJob>::Error>>,
        commands: Seq<ServiceCommand<<G::Job as PayloadJob>::Attributes>>,
        replies: Seq<
            CommandReply<
                <G::Job as PayloadJob>::Attributes,
                <G::Job as PayloadJob>::BuiltPayload,
                <G::Job as PayloadJob>::Error,
                <G::Job as PayloadJob>::ResolveFuture,
            >,
        >,
        states: Seq<Self>,
    ) -> bool {
        &&& states.len() == commands.len() + 1
        &&& replies.len() == commands.len()
        &&& states[0].wf()
        &&& forall|x: PayloadId| #[trigger] states[0].has_job(x) <==> reported_pending(reports, x)
        &&& forall|j: int|
            0 <= j < states[0].entries().len() ==> self.kept_by_poll(
                reports,
                #[trigger] states[0].entries()[j],
            )
        &&& states[0].generator_calls() == self.generator_calls() + Seq::new(
            n_events,
            |i: int| GeneratorCall::NewState,
        )
        &&& forall|k: int|
            0 <= k < commands.len() ==> #[trigger] states[k].command_effect(
                states[k + 1],
                commands[k],
                replies[k],
            )
        &&& states.last() == after
    }

    /// Within one wake-up, a request to start a payload that follows a
    /// successful request to start the same payload is answered with the
    /// same id, announces nothing and changes nothing: the two together
    /// create at most one job and ask the generator at most once.
    pub proof fn lemma_duplicate_start_in_step(
        &self,
        after: Self,
        n_events: nat,
        reports: Seq<JobReport<<G::Job as PayloadJob>::Error>>,
        commands: Seq<ServiceCommand<<G::Job as PayloadJob>::Attributes>>,
        replies: Seq<
            CommandReply<
                <G::Job as PayloadJob>::Attributes,
                <G::Job as PayloadJob>::BuiltPayload,
                <G::Job as PayloadJob>::Error,
                <G::Job as PayloadJob>::ResolveFuture,
            >,
        >,
        states: Seq<Self>,
        k: int,
        id: PayloadId,
    )
        requires
            self.step_trace(after, n_events, reports, commands, replies, states),
            0 <= k,
            k + 1 < commands.len(),
            commands[k] matches ServiceCommand::BuildNewPayload(i, _) && i == id,
            commands[k + 1] matches ServiceCommand::BuildNewPayload(i, _) && i == id,
            replies[k] matches CommandReply::BuildNewPayload(o) && o.reply is Ok,
        ensures
            replies[k + 1] matches CommandReply::BuildNewPayload(o) && o.reply == Ok::<
                PayloadId,
                <G::Job as PayloadJob>::Error,
            >(id) && o.announce is None,
            states[k + 2] == states[k + 1],
            states[k + 1].has_job(id),
            states[k].has_job(id) ==> states[k + 1] == states[k],
            !states[k].has_job(id) ==> states[k + 1].job_ids() == states[k].job_ids().push(id)
                && states[k + 1].generator_calls() == states[k].generator_calls().push(
                GeneratorCall::NewJob(id),
            ),
    {
        assert(states[k].command_effect(states[k + 1], commands[k], replies[k]));
        let k1 = k + 1;
        assert(states[k1].command_effect(states[k1 + 1], commands[k1], replies[k1]));
        assert(k1 + 1 == k + 2);
        if !states[k].has_job(id) {
            assert(states[k + 1].job_ids()[states[k].job_ids().len() as int] == id);
        }
    }

    /// A service with no active job.
    pub fn new(generator: G) -> (r: Self)
        ensures
            r.wf(),
            r.job_ids() == Seq::<PayloadId>::empty(),
            r.generator_calls() == Seq::<GeneratorCall>::empty(),
    {
        let r = PayloadBuilderService {
            generator,
            payload_jobs: Vec::new(),
            calls: Ghost(Seq::empty()),
        };
        proof {
            assert(r.job_ids() =~= Seq::<PayloadId>::empty());
        }
        r
    }

    /// The number of active jobs.
    pub fn active_jobs(&self) -> (r: usize)
        ensures
            r == self.job_ids().len(),
    {
        self.payload_jobs.len()
    }

    /// The position of the job with this id.
    fn find_job(&self, id: PayloadId) -> (r: Option<usize>)
        ensures
            match r {
                Some(i) => i < self.job_ids().len() && self.job_ids()[i as int] == id
                    && self.job_index(id) == i && self.job_of(id) == self.payload_jobs@[i as int].0,
                None => !self.has_job(id),
            },
    {
        let mut i: usize = 0;
        while i < self.payload_jobs.len()
            invariant
                i <= self.payload_jobs@.len(),
                forall|j: int| 0 <= j < i ==> self.job_ids()[j] != id,
            decreases self.payload_jobs@.len() - i,
        {
            if self.payload_jobs[i].1 == id {
                proof {
                    self.lemma_job_index(id, i as int);
                }
                return Some(i);
            }
            i = i + 1;
        }
        None
    }

    /// Whether a job with this id is active.
    pub fn contains_payload(&self, id: PayloadId) -> (r: bool)
        ensures
            r == self.has_job(id),
    {
        self.find_job(id).is_some()
    }

    /// The best payload of the job with this id, or `None` where no such job
    /// is active. The job keeps running.
    #[verifier::rlimit(40)]
    pub fn best_payload(&self, id: PayloadId) -> (r: Option<
        Result<<G::Job as PayloadJob>::BuiltPayload, <G::Job as PayloadJob>::Error>,
    >)
        ensures
            self.answers_best(id, r),
    {
        match self.find_job(id) {
            Some(i) => Some(self.payload_jobs[i].0.best_payload()),
            None => None,
        }
    }

    /// The attributes of the job with this id, or `None` where no such job is
    /// active.
    #[verifier::rlimit(40)]
    pub fn payload_attributes(&self, id: PayloadId) -> (r: Option<
        Result<<G::Job as PayloadJob>::Attributes, <G::Job as PayloadJob>::Error>,
    >)
        ensures
            self.answers_attributes(id, r),
    {
        match self.find_job(id) {
            Some(i) => Some(self.payload_jobs[i].0.payload_attributes()),
            None => None,
        }
    }

    /// Starts building the payload `id` with these attributes, unless a job
    /// for it is already active: that request is answered with the same id,
    /// and no second job is created.
    pub fn build_new_payload(
        &mut self,
        id: PayloadId,
        attributes: <G::Job as PayloadJob>::Attributes,
    ) -> (r: StartOutcome<<G::Job as PayloadJob>::Attributes, <G::Job as PayloadJob>::Error>)
        requires
            old(self).wf(),
        ensures
            final(self).wf(),
            old(self).start_step(*final(self), id, attributes, r),
    {
        if self.contains_payload(id) {
            return StartOutcome { reply: Ok(id), announce: None };
        }
        let ghost old_ids = self.job_ids();
        let created = self.generator.new_payload_job(&attributes);
        self.calls = Ghost(self.calls@.push(GeneratorCall::NewJob(id)));
        match created {
            Ok(job) => {
                self.payload_jobs.push((job, id));
                proof {
                    assert(self.job_ids() =~= old_ids.push(id));
                    lemma_push_fresh_id(old_ids, id);
                }
                StartOutcome { reply: Ok(id), announce: Some(attributes) }
            },
            Err(e) => StartOutcome { reply: Err(e), announce: None },
        }
    }

    /// Hands a change of the canonical chain to the generator.
    pub fn on_new_state(&mut self, event: G::ChainEvent)
        requires
            old(self).wf(),
        ensures
            final(self).wf(),
            final(self).entries() == old(self).entries(),
            final(self).generator_calls() == old(self).generator_calls().push(
                GeneratorCall::NewState,
            ),
    {
        self.generator.on_new_state(event);
        self.calls = Ghost(self.calls@.push(GeneratorCall::NewState));
    }

    /// Resolves the job with this id. A job whose verdict is to stop is
    /// removed at once; `None` where no such job is active.
    pub fn resolve(&mut self, id: PayloadId, kind: PayloadKind) -> (r: Option<
        Resolution<<G::Job as PayloadJob>::ResolveFuture>,
    >)
        requires
            old(self).wf(),
        ensures
            final(self).wf(),
            old(self).resolve_step(*final(self), id, kind, r),
    {
        let i = match self.find_job(id) {
            Some(i) => i,
            None => {
                return None;
            },
        };
        let ghost old_ids = self.job_ids();
        let ghost old_entries = self.payload_jobs@;
        let (future, keep_alive) = self.payload_jobs[i].0.resolve_kind(kind);
        proof {
            assert(self.job_ids() =~= old_ids);
            assert(self.payload_jobs@[i as int].1 == id);
            assert(forall|j: int|
                0 <= j < old_entries.len() && j != i ==> self.payload_jobs@[j] == old_entries[j]);
        }
        if keep_alive == KeepPayloadJobAlive::No {
            let ghost resolved = self.payload_jobs@;
            let _removed = self.payload_jobs.swap_remove(i);
            proof {
                lemma_swap_remove_ids(old_ids, i as int);
                assert(self.job_ids() =~= old_ids.update(i as int, old_ids.last()).drop_last());
                assert(self.payload_jobs@ =~= old_entries.update(i as int, old_entries.last()).drop_last());
            }
        }
        Some(Resolution { future, keep_alive })
    }

    /// Polls every active job once, from the last to the first. A job that
    /// is still building stays; one that finished or failed is dropped. The
    /// report of each poll is returned, in the order of polling.
    pub fn poll_jobs(&mut self) -> (r: Vec<JobReport<<G::Job as PayloadJob>::Error>>)
        requires
            old(self).wf(),
        ensures
            final(self).wf(),
            final(self).generator_calls() == old(self).generator_calls(),
            r@.len() == old(self).job_ids().len(),
            forall|k: int|
                0 <= k < r@.len() ==> #[trigger] r@[k].id == old(self).job_ids()[old(
                    self,
                ).job_ids().len() - 1 - k],
            forall|k: int|
                0 <= k < r@.len() ==> Self::polls_to(
                    old(self).entries()[old(self).job_ids().len() - 1 - k].0,
                    #[trigger] r@[k].outcome,
                ),
            forall|x: PayloadId| #[trigger]
                final(self).has_job(x) <==> reported_pending(r@, x),
            forall|j: int|
                0 <= j < final(self).entries().len() ==> old(self).kept_by_poll(
                    r@,
                    #[trigger] final(self).entries()[j],
                ),
    {
        let ghost old_ids = self.job_ids();
        let ghost old_entries = self.entries();
        let mut reports: Vec<JobReport<<G::Job as PayloadJob>::Error>> = Vec::new();
        let mut idx: usize = self.payload_jobs.len();
        proof {
            assert(old_ids.take(idx as int) =~= old_ids);
        }
        while idx > 0
            invariant
                old_ids.no_duplicates(),
                idx <= old_ids.len(),
                self.job_ids().len() >= idx,
                old_ids == old_entries.map_values(|p: (G::Job, PayloadId)| p.1),
                forall|j: int| 0 <= j < idx ==> #[trigger] self.payload_jobs@[j] == old_entries[j],
                forall|j: int| 0 <= j < idx ==> #[trigger] self.job_ids()[j] == old_ids[j],
                old_entries == old(self).entries(),
                forall|k: int|
                    0 <= k < reports@.len() ==> Self::polls_to(
                        old_entries[old_ids.len() - 1 - k].0,
                        #[trigger] reports@[k].outcome,
                    ),
                forall|j: int|
                    idx <= j < self.payload_jobs@.len() ==> old(self).kept_by_poll(
                        reports@,
                        #[trigger] self.payload_jobs@[j],
                    ),
                self.job_ids().no_duplicates(),
                self.calls == old(self).calls,
                reports@.len() == old_ids.len() - idx,
                forall|k: int|
                    0 <= k < reports@.len() ==> #[trigger] reports@[k].id == old_ids[old_ids.len()
                        - 1 - k],
                forall|x: PayloadId|
                    #[trigger] self.job_ids().contains(x) <==> (old_ids.take(idx as int).contains(x)
                        || reported_pending(reports@, x)),
            decreases idx,
        {
            let i = idx - 1;
            let ghost cur = self.job_ids();
            let ghost cur_entries = self.payload_jobs@;
            let (mut job, id) = self.payload_jobs.swap_remove(i);
            let ghost job0 = job;
            proof {
                lemma_swap_remove_ids(cur, i as int);
                assert(self.job_ids() =~= cur.update(i as int, cur.last()).drop_last());
                assert(id == old_ids[i as int]);
                assert forall|x: PayloadId| reported_pending(reports@, x) implies x != id by {
                    let k = choose|k: int|
                        0 <= k < reports@.len() && #[trigger] reports@[k].id == x
                            && reports@[k].outcome is Pending;
                    assert(reports@[k].id == old_ids[old_ids.len() - 1 - k]);
                }
                assert forall|x: PayloadId|
                    old_ids.take(idx as int).contains(x) && x != id implies old_ids.take(
                    i as int,
                ).contains(x) by {
                    let j = choose|j: int| 0 <= j < idx && old_ids.take(idx as int)[j] == x;
                    assert(old_ids.take(i as int)[j] == x);
                }
                assert forall|x: PayloadId| old_ids.take(i as int).contains(x) implies old_ids.take(
                    idx as int,
                ).contains(x) && x != id by {
                    let j = choose|j: int| 0 <= j < i && old_ids.take(i as int)[j] == x;
                    assert(old_ids.take(idx as int)[j] == x);
                }
                assert(forall|j: int| 0 <= j < i ==> self.job_ids()[j] == cur[j]);
                assert(forall|j: int| 0 <= j < i ==> self.payload_jobs@[j] == cur_entries[j]);
                assert(job0 == old_entries[i as int].0);
            }
            let ghost removed_ids = self.job_ids();
            let ghost removed_entries = self.payload_jobs@;
            let ghost old_reports = reports@;
            let outcome = job.poll_job();
            let ghost job1 = job;
            let pending = match &outcome {
                JobPoll::Pending => true,
                _ => false,
            };
            if pending {
                self.payload_jobs.push((job, id));
                proof {
                    assert(self.job_ids() =~= removed_ids.push(id));
                    lemma_push_fresh_id(removed_ids, id);
                }
            }
            reports.push(JobReport { id, outcome });
            proof {
                assert forall|x: PayloadId| #[trigger]
                    reported_pending(reports@, x) <==> (reported_pending(old_reports, x) || (
                    pending && x == id)) by {
                    if reported_pending(reports@, x) {
                        let k = choose|k: int|
                            0 <= k < reports@.len() && #[trigger] reports@[k].id == x
                                && reports@[k].outcome is Pending;
                        if k < old_reports.len() {
                            assert(old_reports[k] == reports@[k]);
                        }
                    }
                    if reported_pending(old_reports, x) {
                        let k = choose|k: int|
                            0 <= k < old_reports.len() && #[trigger] old_reports[k].id == x
                                && old_reports[k].outcome is Pending;
                        assert(reports@[k] == old_reports[k]);
                    }
                    if pending && x == id {
                        assert(reports@[old_reports.len() as int].id == x);
                    }
                }
                assert forall|x: PayloadId| #[trigger]
                    self.job_ids().contains(x) <==> (old_ids.take(i as int).contains(x)
                        || reported_pending(reports@, x)) by {
                    if pending {
                        assert(self.job_ids().contains(x) <==> (removed_ids.contains(x) || x
                            == id)) by {
                            if self.job_ids().contains(x) && x != id {
                                let j = choose|j: int|
                                    0 <= j < self.job_ids().len() && self.job_ids()[j] == x;
                                assert(removed_ids[j] == x);
                            }
                            if x == id {
                                assert(self.job_ids()[removed_ids.len() as int] == id);
                            }
                            if removed_ids.contains(x) {
                                let j = choose|j: int|
                                    0 <= j < removed_ids.len() && removed_ids[j] == x;
                                assert(self.job_ids()[j] == x);
                            }
                        }
                    }
                }
                assert forall|k: int| 0 <= k < reports@.len() implies #[trigger] reports@[k].id
                    == old_ids[old_ids.len() - 1 - k] by {
                    if k < old_reports.len() {
                        assert(reports@[k] == old_reports[k]);
                    }
                }
                assert forall|k: int| 0 <= k < reports@.len() implies Self::polls_to(
                    old_entries[old_ids.len() - 1 - k].0,
                    #[trigger] reports@[k].outcome,
                ) by {
                    if k < old_reports.len() {
                        assert(reports@[k] == old_reports[k]);
                    } else {
                        assert(job0.may_poll_to(reports@[k].outcome, job1));
                    }
                }
                assert forall|j: int| i <= j < self.payload_jobs@.len() implies old(
                    self,
                ).kept_by_poll(reports@, #[trigger] self.payload_jobs@[j]) by {
                    let e = self.payload_jobs@[j];
                    if pending && j == removed_entries.len() {
                        let k = old_reports.len() as int;
                        assert(e == (job1, id));
                        assert(reports@[k].id == e.1);
                        assert(job0.may_poll_to(reports@[k].outcome, e.0));
                    } else {
                        let j2 = if j == i { cur_entries.len() - 1 } else { j };
                        assert(e == removed_entries[j]);
                        assert(e == cur_entries[j2]);
                        assert(old(self).kept_by_poll(old_reports, e));
                        let k = choose|k: int|
                            0 <= k < old_reports.len() && #[trigger] old_reports[k].id == e.1
                                && old_reports[k].outcome is Pending && old_entries[old_entries.len()
                                - 1 - k].0.may_poll_to(old_reports[k].outcome, e.0);
                        assert(reports@[k] == old_reports[k]);
                    }
                }
            }
            idx = i;
        }
        proof {
            assert forall|x: PayloadId| #[trigger]
                self.has_job(x) <==> reported_pending(reports@, x) by {
                assert(!old_ids.take(0).contains(x));
            }
        }
        reports
    }

    /// Answers one command.
    pub fn on_command(&mut self, command: ServiceCommand<<G::Job as PayloadJob>::Attributes>) -> (r:
        CommandReply<
        <G::Job as PayloadJob>::Attributes,
        <G::Job as PayloadJob>::BuiltPayload,
        <G::Job as PayloadJob>::Error,
        <G::Job as PayloadJob>::ResolveFuture,
    >)
        requires
            old(self).wf(),
        ensures
            final(self).wf(),
            old(self).command_effect(*final(self), command, r),
            forall|x: PayloadId| #[trigger]
                final(self).has_job(x) ==> old(self).has_job(x) || starts(command, x),
            !(command is BuildNewPayload) ==> final(self).generator_calls() == old(
                self,
            ).generator_calls() && !created_job(r),
    {
        match command {
            ServiceCommand::BuildNewPayload(id, attributes) => {
                CommandReply::BuildNewPayload(self.build_new_payload(id, attributes))
            },
            ServiceCommand::BestPayload(id) => CommandReply::BestPayload(self.best_payload(id)),
            ServiceCommand::PayloadAttributes(id) => CommandReply::PayloadAttributes(
                self.payload_attributes(id),
            ),
            ServiceCommand::Resolve(id, kind) => CommandReply::Resolve(self.resolve(id, kind)),
            ServiceCommand::Subscribe => CommandReply::Subscribe,
        }
    }

    /// One wake-up of the service: hands every chain event to the generator,
    /// polls every job once, then answers the commands in order.
    pub fn poll_step(
        &mut self,
        events: Vec<G::ChainEvent>,
        commands: Vec<ServiceCommand<<G::Job as PayloadJob>::Attributes>>,
    ) -> (r: StepOutcome<
        <G::Job as PayloadJob>::Attributes,
        <G::Job as PayloadJob>::BuiltPayload,
        <G::Job as PayloadJob>::Error,
        <G::Job as PayloadJob>::ResolveFuture,
    >)
        requires
            old(self).wf(),
        ensures
            final(self).wf(),
            events_before_jobs(
                old(self).generator_calls(),
                final(self).generator_calls(),
                events@.len() as int,
            ),
            r.reports@.len() == old(self).job_ids().len(),
            forall|k: int|
                0 <= k < r.reports@.len() ==> #[trigger] r.reports@[k].id == old(
                    self,
                ).job_ids()[old(self).job_ids().len() - 1 - k],
            forall|k: int|
                0 <= k < r.reports@.len() ==> Self::polls_to(
                    old(self).entries()[old(self).job_ids().len() - 1 - k].0,
                    #[trigger] r.reports@[k].outcome,
                ),
            r.replies@.len() == commands@.len(),
            exists|states: Seq<Self>| #[trigger]
                old(self).step_trace(
                    *final(self),
                    events@.len(),
                    r.reports@,
                    commands@,
                    r.replies@,
                    states,
                ),
            r.new_job == exists|k: int| 0 <= k < r.replies@.len() && #[trigger] created_job(r.replies@[k]),
            forall|x: PayloadId| #[trigger]
                final(self).has_job(x) ==> old(self).has_job(x) || exists|k: int|
                    0 <= k < commands@.len() && #[trigger] starts(commands@[k], x),
    {
        let ghost calls0 = self.calls@;
        let ghost n_events = events@.len();
        let mut events = events;
        while events.len() > 0
            invariant
                self.wf(),
                self.entries() == old(self).entries(),
                self.calls@.len() == calls0.len() + n_events - events@.len(),
                events@.len() <= n_events,
                self.calls@.take(calls0.len() as int) == calls0,
                forall|j: int|
                    calls0.len() <= j < self.calls@.len() ==> #[trigger] self.calls@[j] is NewState,
            decreases events@.len(),
        {
            let event = events.remove(0);
            let ghost before = self.calls@;
            self.on_new_state(event);
            proof {
                assert(self.calls@.take(calls0.len() as int) =~= before.take(calls0.len() as int));
            }
        }
        proof {
            let tail = Seq::new(n_events, |i: int| GeneratorCall::NewState);
            assert forall|j: int| 0 <= j < calls0.len() implies self.calls@[j] == calls0[j] by {
                assert(self.calls@.take(calls0.len() as int)[j] == self.calls@[j]);
            }
            assert(self.calls@ =~= calls0 + tail);
        }
        let ghost ids0 = self.job_ids();
        let reports = self.poll_jobs();
        let ghost s0 = *self;
        let ghost mut states = seq![s0];
        proof {
            assert forall|x: PayloadId| self.has_job(x) implies ids0.contains(x) by {
                let k = choose|k: int|
                    0 <= k < reports@.len() && #[trigger] reports@[k].id == x
                        && reports@[k].outcome is Pending;
                assert(reports@[k].id == ids0[ids0.len() - 1 - k]);
            }
        }
        let ghost cmds = commands@;
        let mut commands = commands;
        let mut replies = Vec::new();
        let mut new_job = false;
        while commands.len() > 0
            invariant
                self.wf(),
                replies@.len() + commands@.len() == cmds.len(),
                forall|k: int| 0 <= k < commands@.len() ==> commands@[k] == cmds[replies@.len() + k],
                states.len() == replies@.len() + 1,
                states[0] == s0,
                states.last() == *self,
                forall|k: int|
                    0 <= k < replies@.len() ==> #[trigger] states[k].command_effect(
                        states[k + 1],
                        cmds[k],
                        replies@[k],
                    ),
                new_job == exists|k: int| 0 <= k < replies@.len() && #[trigger] created_job(replies@[k]),
                forall|x: PayloadId| #[trigger]
                    self.has_job(x) ==> old(self).has_job(x) || exists|k: int|
                        0 <= k < replies@.len() && #[trigger] starts(cmds[k], x),
                self.calls@.len() >= calls0.len() + n_events,
                self.calls@.take(calls0.len() as int) == calls0,
                forall|j: int|
                    calls0.len() <= j < calls0.len() + n_events ==> #[trigger] self.calls@[j] is NewState,
                forall|j: int|
                    calls0.len() + n_events <= j < self.calls@.len() ==> #[trigger] self.calls@[j] is NewJob,
            decreases commands@.len(),
        {
            let command = commands.remove(0);
            proof {
                assert(command == cmds[replies@.len() as int]);
            }
            let ghost before = self.calls@;
            let ghost old_replies = replies@;
            let ghost old_states = states;
            let reply = self.on_command(command);
            proof {
                states = states.push(*self);
            }
            let created = match &reply {
                CommandReply::BuildNewPayload(out) => out.announce.is_some(),
                _ => false,
            };
            new_job = new_job || created;
            replies.push(reply);
            proof {
                assert(self.calls@.take(calls0.len() as int) =~= before.take(calls0.len() as int));
                assert forall|j: int| calls0.len() <= j < before.len() implies self.calls@[j] == before[j] by {}
                assert forall|x: PayloadId| #[trigger] self.has_job(x) implies old(self).has_job(x)
                    || exists|k: int| 0 <= k < replies@.len() && #[trigger] starts(cmds[k], x) by {
                    assert(starts(cmds[old_replies.len() as int], x) ==> 0 <= old_replies.len()
                        < replies@.len());
                }
                assert forall|k: int| 0 <= k < replies@.len() implies #[trigger] states[k].command_effect(
                    states[k + 1],
                    cmds[k],
                    replies@[k],
                ) by {
                    if k < old_replies.len() {
                        assert(replies@[k] == old_replies[k]);
                        assert(states[k] == old_states[k]);
                        assert(states[k + 1] == old_states[k + 1]);
                    }
                }
                if new_job {
                    if created {
                        assert(created_job(replies@[old_replies.len() as int]));
                    } else {
                        let k = choose|k: int| 0 <= k < old_replies.len() && #[trigger] created_job(old_replies[k]);
                        assert(replies@[k] == old_replies[k]);
                    }
                } else {
                    assert forall|k: int| 0 <= k < replies@.len() implies !#[trigger] created_job(replies@[k]) by {
                        if k < old_replies.len() {
                            assert(replies@[k] == old_replies[k]);
                        }
                    }
                }
            }
        }
        proof {
            assert(cmds =~= cmds.take(replies@.len() as int));
            assert(old(self).step_trace(
                *self,
                n_events,
                reports@,
                cmds,
                replies@,
                states,
            ));
        }
        StepOutcome { reports, replies, new_job }
    }
}

} // verus!

use std::cell::RefCell;
use std::rc::Rc;

use node_services::payload_service::{
    CommandReply, JobPoll, KeepPayloadJobAlive, PayloadBuilderService, PayloadId, PayloadJob,
    PayloadJobGenerator, PayloadKind, ServiceCommand,
};

#[derive(Clone, Debug, PartialEq)]
struct Attrs {
    id: u64,
    parent: u64,
}

type Log = Rc<RefCell<Vec<String>>>;

struct Job {
    attrs: Attrs,
    /// What each poll returns, in turn; `Pending` once they run out.
    polls: Vec<&'static str>,
    keep: KeepPayloadJobAlive,
}

impl PayloadJob for Job {
    type Attributes = Attrs;
    type BuiltPayload = u64;
    type Error = String;
    type ResolveFuture = Result<u64, String>;

    // These mocks admit every result; the library's contracts name them.
    fn may_poll_to(&self, _r: JobPoll<String>, _after: Job) -> bool {
        true
    }

    fn may_offer_best(&self, _r: Result<u64, String>) -> bool {
        true
    }

    fn may_report_attributes(&self, _r: Result<Attrs, String>) -> bool {
        true
    }

    fn may_resolve(&self, _kind: PayloadKind, _r: (Result<u64, String>, KeepPayloadJobAlive)) -> bool {
        true
    }

    fn poll_job(&mut self) -> JobPoll<String> {
        if self.polls.is_empty() {
            return JobPoll::Pending;
        }
        match self.polls.remove(0) {
            "done" => JobPoll::Finished,
            "fail" => JobPoll::Failed("job failed".to_string()),
            _ => JobPoll::Pending,
        }
    }

    fn best_payload(&self) -> Result<u64, String> {
        Ok(self.attrs.id * 10)
    }

    fn payload_attributes(&self) -> Result<Attrs, String> {
        Ok(self.attrs.clone())
    }

    fn resolve_kind(&mut self, _kind: PayloadKind) -> (Result<u64, String>, KeepPayloadJobAlive) {
        (Ok(self.attrs.id * 10 + 1), self.keep)
    }
}

struct Generator {
    log: Log,
    keep: KeepPayloadJobAlive,
    polls: Vec<&'static str>,
    refuse: bool,
}

impl PayloadJobGenerator for Generator {
    type Job = Job;
    type ChainEvent = u64;

    fn may_create(&self, _attributes: Attrs, _r: Result<Job, String>) -> bool {
        true
    }

    fn new_payload_job(&mut self, attributes: &Attrs) -> Result<Job, String> {
        self.log.borrow_mut().push(format!("new_job {}", attributes.id));
        if self.refuse {
            return Err("no parent".to_string());
        }
        Ok(Job { attrs: attributes.clone(), polls: self.polls.clone(), keep: self.keep })
    }

    fn on_new_state(&mut self, event: u64) {
        self.log.borrow_mut().push(format!("state {}", event));
    }
}

fn service(keep: KeepPayloadJobAlive) -> (PayloadBuilderService<Generator>, Log) {
    let log: Log = Rc::new(RefCell::new(Vec::new()));
    let generator = Generator { log: log.clone(), keep, polls: Vec::new(), refuse: false };
    (PayloadBuilderService::new(generator), log)
}

fn attrs(id: u64) -> Attrs {
    Attrs { id, parent: id + 100 }
}

fn start(id: u64) -> ServiceCommand<Attrs> {
    ServiceCommand::BuildNewPayload(PayloadId { value: id }, attrs(id))
}

#[test]
fn duplicate_start_is_idempotent() {
    let (mut svc, log) = service(KeepPayloadJobAlive::Yes);
    let out = svc.poll_step(Vec::new(), vec![start(7), start(7)]);
    assert_eq!(out.replies.len(), 2);
    let mut announced = Vec::new();
    for reply in &out.replies {
        match reply {
            CommandReply::BuildNewPayload(o) => {
                assert_eq!(o.reply, Ok(PayloadId { value: 7 }));
                if let Some(a) = &o.announce {
                    announced.push(a.clone());
                }
            }
            _ => panic!("reply of another kind"),
        }
    }
    assert_eq!(announced, vec![attrs(7)]);
    assert!(out.new_job);
    assert_eq!(svc.active_jobs(), 1);
    assert_eq!(*log.borrow(), vec!["new_job 7".to_string()]);
}

#[test]
fn second_start_in_later_step_is_idempotent() {
    let (mut svc, _log) = service(KeepPayloadJobAlive::Yes);
    let first = svc.build_new_payload(PayloadId { value: 3 }, attrs(3));
    let second = svc.build_new_payload(PayloadId { value: 3 }, attrs(3));
    assert_eq!(first.reply, Ok(PayloadId { value: 3 }));
    assert_eq!(first.announce, Some(attrs(3)));
    assert_eq!(second.reply, Ok(PayloadId { value: 3 }));
    assert_eq!(second.announce, None);
    assert_eq!(svc.active_jobs(), 1);
}

#[test]
fn resolve_removes_when_keep_is_no() {
    let (mut svc, _log) = service(KeepPayloadJobAlive::No);
    let id = PayloadId { value: 4 };
    svc.build_new_payload(id, attrs(4));
    assert_eq!(svc.best_payload(id), Some(Ok(40)));
    let resolved = svc.resolve(id, PayloadKind::Earliest).expect("job is active");
    assert_eq!(resolved.keep_alive, KeepPayloadJobAlive::No);
    assert_eq!(resolved.future, Ok(41));
    assert_eq!(svc.best_payload(id), None);
    assert!(!svc.contains_payload(id));
    assert_eq!(svc.active_jobs(), 0);
}

#[test]
fn resolve_keeps_job_when_keep_is_yes() {
    let (mut svc, _log) = service(KeepPayloadJobAlive::Yes);
    let id = PayloadId { value: 5 };
    svc.build_new_payload(id, attrs(5));
    let resolved = svc.resolve(id, PayloadKind::WaitForPending).expect("job is active");
    assert_eq!(resolved.keep_alive, KeepPayloadJobAlive::Yes);
    assert_eq!(svc.best_payload(id), Some(Ok(50)));
}

#[test]
fn resolve_of_unknown_id_is_none() {
    let (mut svc, _log) = service(KeepPayloadJobAlive::No);
    assert!(svc.resolve(PayloadId { value: 1 }, PayloadKind::Earliest).is_none());
    assert_eq!(svc.best_payload(PayloadId { value: 1 }), None);
    assert_eq!(svc.payload_attributes(PayloadId { value: 1 }), None);
}

#[test]
fn resolved_job_is_gone_until_started_again() {
    let (mut svc, _log) = service(KeepPayloadJobAlive::No);
    let id = PayloadId { value: 8 };
    svc.build_new_payload(id, attrs(8));
    svc.resolve(id, PayloadKind::Earliest);
    let out = svc.poll_step(vec![1], vec![ServiceCommand::BestPayload(id)]);
    assert!(matches!(out.replies[0], CommandReply::BestPayload(None)));
    let out = svc.poll_step(Vec::new(), vec![start(8), ServiceCommand::BestPayload(id)]);
    assert!(matches!(out.replies[1], CommandReply::BestPayload(Some(Ok(80)))));
}

#[test]
fn chain_events_reach_generator_before_new_job() {
    let (mut svc, log) = service(KeepPayloadJobAlive::Yes);
    svc.poll_step(vec![1, 2], vec![start(9)]);
    assert_eq!(
        *log.borrow(),
        vec!["state 1".to_string(), "state 2".to_string(), "new_job 9".to_string()]
    );
}

#[test]
fn poll_drops_finished_and_failed_jobs() {
    let log: Log = Rc::new(RefCell::new(Vec::new()));
    let mut svc = PayloadBuilderService::new(Generator {
        log,
        keep: KeepPayloadJobAlive::Yes,
        polls: vec!["pending", "pending"],
        refuse: false,
    });
    for id in 1..=3u64 {
        svc.build_new_payload(PayloadId { value: id }, attrs(id));
    }
    let reports = svc.poll_jobs();
    let ids: Vec<u64> = reports.iter().map(|r| r.id.value).collect();
    assert_eq!(ids, vec![3, 2, 1]);
    assert!(reports.iter().all(|r| matches!(r.outcome, JobPoll::Pending)));
    assert_eq!(svc.active_jobs(), 3);
    svc.poll_jobs();
    let reports = svc.poll_jobs();
    assert_eq!(reports.len(), 3);
    assert_eq!(svc.active_jobs(), 3);
}

#[test]
fn finished_and_failed_jobs_leave_the_registry() {
    let log: Log = Rc::new(RefCell::new(Vec::new()));
    let mut svc = PayloadBuilderService::new(Generator {
        log,
        keep: KeepPayloadJobAlive::Yes,
        polls: vec!["done"],
        refuse: false,
    });
    svc.build_new_payload(PayloadId { value: 1 }, attrs(1));
    let reports = svc.poll_jobs();
    assert!(matches!(reports[0].outcome, JobPoll::Finished));
    assert_eq!(svc.active_jobs(), 0);

    let log: Log = Rc::new(RefCell::new(Vec::new()));
    let mut svc = PayloadBuilderService::new(Generator {
        log,
        keep: KeepPayloadJobAlive::Yes,
        polls: vec!["fail"],
        refuse: false,
    });
    svc.build_new_payload(PayloadId { value: 2 }, attrs(2));
    svc.build_new_payload(PayloadId { value: 3 }, attrs(3));
    let reports = svc.poll_jobs();
    assert_eq!(reports.len(), 2);
    assert!(reports.iter().all(|r| matches!(r.outcome, JobPoll::Failed(_))));
    assert!(!svc.contains_payload(PayloadId { value: 2 }));
    assert_eq!(svc.active_jobs(), 0);
}

#[test]
fn generator_error_is_replied_and_no_job_is_kept() {
    let log: Log = Rc::new(RefCell::new(Vec::new()));
    let mut svc = PayloadBuilderService::new(Generator {
        log,
        keep: KeepPayloadJobAlive::Yes,
        polls: Vec::new(),
        refuse: true,
    });
    let out = svc.poll_step(Vec::new(), vec![start(6)]);
    match &out.replies[0] {
        CommandReply::BuildNewPayload(o) => {
            assert_eq!(o.reply, Err("no parent".to_string()));
            assert_eq!(o.announce, None);
        }
        _ => panic!("reply of another kind"),
    }
    assert!(!out.new_job);
    assert_eq!(svc.active_jobs(), 0);
}

#[test]
fn every_command_gets_a_reply_of_its_kind() {
    let (mut svc, _log) = service(KeepPayloadJobAlive::Yes);
    let id = PayloadId { value: 2 };
    let out = svc.poll_step(
        Vec::new(),
        vec![
            start(2),
            ServiceCommand::BestPayload(id),
            ServiceCommand::PayloadAttributes(id),
            ServiceCommand::Resolve(id, PayloadKind::Earliest),
            ServiceCommand::Subscribe,
        ],
    );
    assert_eq!(out.replies.len(), 5);
    assert!(matches!(out.replies[0], CommandReply::BuildNewPayload(_)));
    assert!(matches!(out.replies[1], CommandReply::BestPayload(Some(Ok(20)))));
    match &out.replies[2] {
        CommandReply::PayloadAttributes(Some(Ok(a))) => assert_eq!(*a, attrs(2)),
        _ => panic!("attributes of the job expected"),
    }
    match &out.replies[3] {
        CommandReply::Resolve(Some(r)) => assert_eq!(r.future, Ok(21)),
        _ => panic!("a resolution expected"),
    }
    assert!(matches!(out.replies[4], CommandReply::Subscribe));
}

#[test]
fn step_without_new_job_reports_none() {
    let (mut svc, _log) = service(KeepPayloadJobAlive::Yes);
    let out = svc.poll_step(vec![3], vec![ServiceCommand::Subscribe]);
    assert!(!out.new_job);
    assert!(out.reports.is_empty());
}

#[test]
fn queries_read_the_job_with_the_id() {
    let (mut svc, _log) = service(KeepPayloadJobAlive::Yes);
    svc.build_new_payload(PayloadId { value: 1 }, attrs(1));
    svc.build_new_payload(PayloadId { value: 2 }, attrs(2));
    assert_eq!(svc.best_payload(PayloadId { value: 2 }), Some(Ok(20)));
    assert_eq!(svc.payload_attributes(PayloadId { value: 2 }), Some(Ok(attrs(2))));
    let resolved = svc.resolve(PayloadId { value: 2 }, PayloadKind::Earliest).expect("active");
    assert_eq!(resolved.future, Ok(21));
}

#[test]
fn started_again_after_resolve_is_a_new_job() {
    let (mut svc, log) = service(KeepPayloadJobAlive::No);
    let id = PayloadId { value: 5 };
    svc.build_new_payload(id, attrs(5));
    svc.resolve(id, PayloadKind::Earliest);
    let again = svc.build_new_payload(id, attrs(5));
    assert_eq!(again.reply, Ok(id));
    assert_eq!(again.announce, Some(attrs(5)));
    assert_eq!(*log.borrow(), vec!["new_job 5".to_string(), "new_job 5".to_string()]);
}

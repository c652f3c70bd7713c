use contact_relay::config::Settings;
use contact_relay::pipeline::{
    PipelineConfig, Reply, ReplyBody, RequestOutcome, RequestPipeline, Step,
};
use contact_relay::rate_limit::{Admission, RateLimiter};
use contact_relay::recipients::RecipientPolicy;
use contact_relay::types::RequestPayload;

fn config() -> PipelineConfig {
    PipelineConfig {
        use_rate_limit: true,
        rate_limit_window_seconds: 3600,
        rate_limit_max: 5,
        recipient_policy: RecipientPolicy { allow_dynamic: true, always_duplicate: false },
        default_recipients: vec!["d@x".to_string()],
        max_subject: 10,
        max_message: 20,
    }
}

fn payload(subject: &str, message: &str, recipients: Option<&[&str]>) -> RequestPayload {
    RequestPayload {
        subject: subject.to_string(),
        message: message.to_string(),
        recipients: recipients.map(|list| list.iter().map(|s| s.to_string()).collect()),
    }
}

fn error_of(reply: Reply) -> (u16, String, String) {
    match reply.body {
        ReplyBody::Error(body) => (reply.status, body.error, body.message),
        ReplyBody::Message(body) => panic!("not an error body: {}", body.message),
    }
}

fn respond(step: Step) -> RequestOutcome {
    match step {
        Step::Respond(outcome) => outcome,
        Step::Dispatch { .. } => panic!("the request went on to dispatch"),
    }
}

#[test]
fn denied_request_is_rejected_before_anything_else() {
    let pipeline = RequestPipeline::new(config());
    let outcome = respond(pipeline.plan(Admission::Denied, Err("bad json".to_string())));
    assert_eq!(
        error_of(outcome.reply()),
        (
            429,
            "TooManyRequests".to_string(),
            "You have reached the maximum number of requests per hour. Please try again later."
                .to_string()
        )
    );
    let outcome = respond(pipeline.plan(Admission::Denied, Ok(payload("s", "m", None))));
    assert!(matches!(outcome, RequestOutcome::TooManyRequests));
}

#[test]
fn unparsed_body_is_a_bad_request() {
    let pipeline = RequestPipeline::new(config());
    let outcome =
        respond(pipeline.plan(Admission::Allowed, Err("expected value at line 1".to_string())));
    assert_eq!(
        error_of(outcome.reply()),
        (400, "InvalidJson".to_string(), "expected value at line 1".to_string())
    );
}

#[test]
fn lengths_are_checked_in_bytes_subject_first() {
    let pipeline = RequestPipeline::new(config());
    let outcome = respond(pipeline.plan(
        Admission::Allowed,
        Ok(payload("01234567890", "a message that is far too long", None)),
    ));
    assert_eq!(
        error_of(outcome.reply()),
        (400, "SubjectTooLong".to_string(), "subject exceeds 10 characters".to_string())
    );
    let outcome = respond(pipeline.plan(
        Admission::Allowed,
        Ok(payload("0123456789", "a message that is far too long", None)),
    ));
    assert_eq!(
        error_of(outcome.reply()),
        (400, "MessageTooLong".to_string(), "message exceeds 20 characters".to_string())
    );
    // Six characters, twelve bytes.
    let outcome = respond(pipeline.plan(Admission::Allowed, Ok(payload("éééééé", "m", None))));
    assert!(matches!(outcome, RequestOutcome::SubjectTooLong(10)));
}

#[test]
fn limits_are_inclusive() {
    let pipeline = RequestPipeline::new(config());
    let step =
        pipeline.plan(Admission::Allowed, Ok(payload("0123456789", "01234567890123456789", None)));
    assert!(matches!(step, Step::Dispatch { .. }));
}

#[test]
fn no_recipient_is_a_bad_request() {
    let mut c = config();
    c.default_recipients = Vec::new();
    let pipeline = RequestPipeline::new(c);
    let outcome = respond(pipeline.plan(Admission::Allowed, Ok(payload("s", "m", None))));
    assert_eq!(
        error_of(outcome.reply()),
        (400, "NoRecipient".to_string(), "No recipient configured".to_string())
    );
    let outcome = respond(pipeline.plan(Admission::Allowed, Ok(payload("s", "m", Some(&[" "])))));
    assert!(matches!(outcome, RequestOutcome::NoRecipient));
}

#[test]
fn valid_request_goes_on_to_dispatch() {
    let pipeline = RequestPipeline::new(config());
    let step = pipeline.plan(
        Admission::Allowed,
        Ok(payload("subject", "message", Some(&["b@x", " a@x", "b@x"]))),
    );
    match step {
        Step::Dispatch { coordinator, subject, message } => {
            assert_eq!(subject, "subject");
            assert_eq!(message, "message");
            assert_eq!(coordinator.total(), 2);
            assert_eq!(coordinator.recipient(0), Some("a@x"));
            assert_eq!(coordinator.recipient(1), Some("b@x"));
            assert!(!coordinator.is_complete());
            assert!(coordinator.finish().is_none());
        }
        Step::Respond(_) => panic!("the request was answered without dispatch"),
    }
}

#[test]
fn admission_counts_the_request_whatever_follows() {
    let pipeline = RequestPipeline::new(config());
    let mut limiter = RateLimiter::new();
    for i in 0..5 {
        let admission = pipeline.check_admission(&mut limiter, "1.2.3.4", 100 + i);
        assert_eq!(admission, Admission::Allowed);
        // The body is unreadable, the request is still counted.
        let outcome = respond(pipeline.plan(admission, Err("bad".to_string())));
        assert!(matches!(outcome, RequestOutcome::InvalidJson(_)));
    }
    assert_eq!(pipeline.check_admission(&mut limiter, "1.2.3.4", 200), Admission::Denied);
    assert_eq!(limiter.recorded_for("1.2.3.4"), vec![100, 101, 102, 103, 104]);
    assert_eq!(pipeline.check_admission(&mut limiter, "1.2.3.4", 3700), Admission::Allowed);
}

#[test]
fn switched_off_limiter_allows_everything_and_keeps_no_record() {
    let mut c = config();
    c.use_rate_limit = false;
    c.rate_limit_max = 0;
    let pipeline = RequestPipeline::new(c);
    let mut limiter = RateLimiter::new();
    for i in 0..20 {
        assert_eq!(pipeline.check_admission(&mut limiter, "k", i), Admission::Allowed);
    }
    assert_eq!(limiter.recorded_for("k"), Vec::<i64>::new());
}

#[test]
fn success_answers_ok() {
    let reply = RequestOutcome::Accepted.reply();
    assert_eq!(reply.status, 200);
    match reply.body {
        ReplyBody::Message(body) => assert_eq!(body.message, "ok"),
        ReplyBody::Error(body) => panic!("an error body: {}", body.error),
    }
}

#[test]
fn pipeline_config_is_read_from_the_settings() {
    let settings = Settings {
        port: 1,
        log_level: "info".to_string(),
        smtp_server: "s".to_string(),
        smtp_port: 2,
        smtp_user: "u".to_string(),
        smtp_password: "p".to_string(),
        allow_email_input: false,
        duplicate_emails_to_deafult_recipients_everytime: true,
        use_rate_limit: true,
        rate_limit_timeframe_seconds: 60,
        rate_limit_max: 3,
        emails: Some(vec!["a@x".to_string(), "b@x".to_string()]),
        cors_origins: None,
    };
    let c = PipelineConfig::from_settings(&settings, 100, 1000);
    assert!(c.use_rate_limit);
    assert_eq!(c.rate_limit_window_seconds, 60);
    assert_eq!(c.rate_limit_max, 3);
    assert_eq!(c.recipient_policy, RecipientPolicy { allow_dynamic: false, always_duplicate: true });
    assert_eq!(c.default_recipients, vec!["a@x".to_string(), "b@x".to_string()]);
    assert_eq!(c.max_subject, 100);
    assert_eq!(c.max_message, 1000);
    let mut none = settings.clone();
    none.emails = None;
    assert!(PipelineConfig::from_settings(&none, 1, 1).default_recipients.is_empty());
}

//! The request pipeline: admission, validation, recipient resolution,
//! dispatch, and the response each ending maps to.
//!
//! One request makes one pass. Reading the request, holding the lock around
//! the limiter, performing the sends and writing the response happen outside;
//! every decision in between is taken here.

use crate::config::Settings;
use crate::dispatch::{failure_text, AggregateOutcome, DispatchCoordinator, DispatchProgress};
use crate::rate_limit::{admits, recorded, stamps_of, Admission, RateLimiter};
use crate::recipients::{addresses, candidates, canonical, resolve, RecipientPolicy};
use crate::text::{byte_len, clone_list, decimal, decimal_string, utf8_len};
use crate::types::{ApiError, ApiMessage, RequestPayload};
use vstd::prelude::*;

verus! {

/// What the pipeline is configured with. It is fixed when the service starts.
pub struct PipelineConfig {
    /// Whether requests are throttled at all.
    pub use_rate_limit: bool,
    /// The length of the trailing window, in seconds.
    pub rate_limit_window_seconds: u32,
    /// How many requests a client may make within the window.
    pub rate_limit_max: u32,
    pub recipient_policy: RecipientPolicy,
    pub default_recipients: Vec<String>,
    /// The longest subject accepted, in bytes.
    pub max_subject: usize,
    /// The longest message accepted, in bytes.
    pub max_message: usize,
}

impl PipelineConfig {
    /// The pipeline's part of the settings, with the two length limits.
    /// Without configured addresses there are no default recipients.
    pub fn from_settings(settings: &Settings, max_subject: usize, max_message: usize) -> (config:
        PipelineConfig)
        ensures
            config.use_rate_limit == settings.use_rate_limit,
            config.rate_limit_window_seconds == settings.rate_limit_timeframe_seconds,
            config.rate_limit_max == settings.rate_limit_max,
            config.recipient_policy == (RecipientPolicy {
                allow_dynamic: settings.allow_email_input,
                always_duplicate: settings.duplicate_emails_to_deafult_recipients_everytime,
            }),
            config.default_recipients.deep_view() == match settings.emails {
                Some(list) => list.deep_view(),
                None => Seq::empty(),
            },
            config.max_subject == max_subject,
            config.max_message == max_message,
    {
        let default_recipients = match &settings.emails {
            Some(list) => clone_list(list),
            None => {
                let none: Vec<String> = Vec::new();
                assert(none.deep_view() =~= Seq::<Seq<char>>::empty());
                none
            },
        };
        PipelineConfig {
            use_rate_limit: settings.use_rate_limit,
            rate_limit_window_seconds: settings.rate_limit_timeframe_seconds,
            rate_limit_max: settings.rate_limit_max,
            recipient_policy: RecipientPolicy {
                allow_dynamic: settings.allow_email_input,
                always_duplicate: settings.duplicate_emails_to_deafult_recipients_everytime,
            },
            default_recipients,
            max_subject,
            max_message,
        }
    }
}

/// How a request ended.
#[derive(Debug)]
pub enum RequestOutcome {
    /// Every send delivered.
    Accepted,
    /// The client is over its rate limit.
    TooManyRequests,
    /// The body could not be read as a payload; the text says why.
    InvalidJson(String),
    /// The subject is longer than the limit given.
    SubjectTooLong(usize),
    /// The message is longer than the limit given.
    MessageTooLong(usize),
    /// No address was left to send to.
    NoRecipient,
    /// At least one send did not deliver.
    EmailSendFailed(AggregateOutcome),
}

/// The body of a response.
#[derive(Debug)]
pub enum ReplyBody {
    Message(ApiMessage),
    Error(ApiError),
}

/// A response: the HTTP status and the body.
#[derive(Debug)]
pub struct Reply {
    pub status: u16,
    pub body: ReplyBody,
}

/// What the pipeline asks for after it has looked at a request.
pub enum Step {
    /// The request is over; answer with this outcome.
    Respond(RequestOutcome),
    /// Send `subject` and `message` to every recipient of the coordinator,
    /// and report each result to it.
    Dispatch { coordinator: DispatchCoordinator, subject: String, message: String },
}

impl RequestOutcome {
    /// The HTTP status of the response.
    pub open spec fn status_code(self) -> u16 {
        match self {
            RequestOutcome::Accepted => 200,
            RequestOutcome::TooManyRequests => 429,
            RequestOutcome::InvalidJson(_) => 400,
            RequestOutcome::SubjectTooLong(_) => 400,
            RequestOutcome::MessageTooLong(_) => 400,
            RequestOutcome::NoRecipient => 400,
            RequestOutcome::EmailSendFailed(_) => 500,
        }
    }

    /// The error code of the response body; a success has none.
    pub open spec fn error_code(self) -> Option<Seq<char>> {
        match self {
            RequestOutcome::Accepted => None,
            RequestOutcome::TooManyRequests => Some("TooManyRequests"@),
            RequestOutcome::InvalidJson(_) => Some("InvalidJson"@),
            RequestOutcome::SubjectTooLong(_) => Some("SubjectTooLong"@),
            RequestOutcome::MessageTooLong(_) => Some("MessageTooLong"@),
            RequestOutcome::NoRecipient => Some("NoRecipient"@),
            RequestOutcome::EmailSendFailed(_) => Some("EmailSendFailed"@),
        }
    }

    /// The message of the response body.
    pub open spec fn message_text(self) -> Seq<char> {
        match self {
            RequestOutcome::Accepted => "ok"@,
            RequestOutcome::TooManyRequests =>
                "You have reached the maximum number of requests per hour. Please try again later."@,
            RequestOutcome::InvalidJson(why) => why@,
            RequestOutcome::SubjectTooLong(limit) => "subject exceeds "@ + decimal(limit as nat)
                + " characters"@,
            RequestOutcome::MessageTooLong(limit) => "message exceeds "@ + decimal(limit as nat)
                + " characters"@,
            RequestOutcome::NoRecipient => "No recipient configured"@,
            RequestOutcome::EmailSendFailed(summary) => failure_text(
                summary.failed as nat,
                summary.total as nat,
                summary.itemized.deep_view(),
            ),
        }
    }

    /// The response this outcome is answered with.
    pub fn reply(&self) -> (reply: Reply)
        ensures
            reply.status == self.status_code(),
            match reply.body {
                ReplyBody::Message(body) => self.error_code() is None && body.message@
                    == self.message_text(),
                ReplyBody::Error(body) => self.error_code() == Some(body.error@) && body.message@
                    == self.message_text(),
            },
    {
        match self {
            RequestOutcome::Accepted => Reply {
                status: 200,
                body: ReplyBody::Message(ApiMessage { message: String::from_str("ok") }),
            },
            RequestOutcome::TooManyRequests => error_reply(
                429,
                "TooManyRequests",
                String::from_str(
                    "You have reached the maximum number of requests per hour. Please try again later.",
                ),
            ),
            RequestOutcome::InvalidJson(why) => error_reply(400, "InvalidJson", why.clone()),
            RequestOutcome::SubjectTooLong(limit) => {
                let mut message = String::from_str("subject exceeds ");
                let digits = decimal_string(*limit);
                message.append(digits.as_str());
                message.append(" characters");
                error_reply(400, "SubjectTooLong", message)
            },
            RequestOutcome::MessageTooLong(limit) => {
                let mut message = String::from_str("message exceeds ");
                let digits = decimal_string(*limit);
                message.append(digits.as_str());
                message.append(" characters");
                error_reply(400, "MessageTooLong", message)
            },
            RequestOutcome::NoRecipient => error_reply(
                400,
                "NoRecipient",
                String::from_str("No recipient configured"),
            ),
            RequestOutcome::EmailSendFailed(summary) => error_reply(
                500,
                "EmailSendFailed",
                summary.failure_message(),
            ),
        }
    }
}

fn error_reply(status: u16, code: &str, message: String) -> (reply: Reply)
    ensures
        reply.status == status,
        reply.body matches ReplyBody::Error(body) && body.error@ == code@ && body.message@
            == message@,
{
    Reply { status, body: ReplyBody::Error(ApiError { error: String::from_str(code), message }) }
}

/// The pipeline of one service.
pub struct RequestPipeline {
    pub config: PipelineConfig,
}

impl RequestPipeline {
    pub fn new(config: PipelineConfig) -> (pipeline: RequestPipeline)
        ensures
            pipeline.config == config,
    {
        RequestPipeline { config }
    }

    /// Whether `payload` passes validation, and if not on which ground. The
    /// subject is looked at before the message.
    pub open spec fn payload_fault(&self, payload: RequestPayload) -> Option<RequestOutcome> {
        if utf8_len(payload.subject@) > self.config.max_subject {
            Some(RequestOutcome::SubjectTooLong(self.config.max_subject))
        } else if utf8_len(payload.message@) > self.config.max_message {
            Some(RequestOutcome::MessageTooLong(self.config.max_message))
        } else {
            None
        }
    }

    /// The addresses a valid `payload` is to be sent to.
    pub open spec fn destinations(&self, payload: RequestPayload) -> Set<Seq<char>> {
        addresses(
            candidates(
                payload.supplied(),
                self.config.recipient_policy,
                self.config.default_recipients.deep_view(),
            ),
        )
    }

    /// The first stage: admission.
    ///
    /// With rate limiting switched off every request is allowed and the
    /// limiter is not touched. Otherwise the limiter decides, and counts the
    /// request if it allows it, whatever becomes of the request later.
    pub fn check_admission(&self, limiter: &mut RateLimiter, key: &str, now: i64) -> (admission:
        Admission)
        ensures
            !self.config.use_rate_limit ==> admission == Admission::Allowed && final(limiter)@
                == old(limiter)@,
            self.config.use_rate_limit ==> {
                &&& admission == (if admits(
                    stamps_of(old(limiter)@, key@),
                    now,
                    self.config.rate_limit_window_seconds,
                    self.config.rate_limit_max,
                ) {
                    Admission::Allowed
                } else {
                    Admission::Denied
                })
                &&& final(limiter)@ == old(limiter)@.insert(
                    key@,
                    recorded(
                        stamps_of(old(limiter)@, key@),
                        now,
                        self.config.rate_limit_window_seconds,
                        self.config.rate_limit_max,
                    ),
                )
            },
    {
        if self.config.use_rate_limit {
            limiter.check(
                key,
                now,
                self.config.rate_limit_window_seconds,
                self.config.rate_limit_max,
            )
        } else {
            Admission::Allowed
        }
    }

    /// The stages between admission and dispatch.
    ///
    /// A denied request is rejected. An admitted one is validated: a body
    /// that did not parse, then a subject, then a message over its limit
    /// ends the request as a bad request. Then the recipients are resolved;
    /// with none left the request ends as a bad request too. Otherwise a
    /// fan-out to the resolved recipients is asked for, with nothing settled
    /// yet.
    pub fn plan(&self, admission: Admission, parsed: Result<RequestPayload, String>) -> (step: Step)
        ensures
            match (admission, parsed) {
                (Admission::Denied, _) => step matches Step::Respond(
                    RequestOutcome::TooManyRequests,
                ),
                (Admission::Allowed, Err(why)) => step matches Step::Respond(
                    RequestOutcome::InvalidJson(text),
                ) && text@ == why@,
                (Admission::Allowed, Ok(payload)) => match self.payload_fault(payload) {
                    Some(fault) => step matches Step::Respond(outcome) && outcome == fault,
                    None => if self.destinations(payload) == Set::<Seq<char>>::empty() {
                        step matches Step::Respond(RequestOutcome::NoRecipient)
                    } else {
                        &&& step matches Step::Dispatch { coordinator, subject, message }
                        &&& coordinator.wf()
                        &&& coordinator@ == DispatchProgress::start(coordinator@.recipients)
                        &&& coordinator@.recipients.len() > 0
                        &&& canonical(coordinator@.recipients, self.destinations(payload))
                        &&& subject@ == payload.subject@
                        &&& message@ == payload.message@
                    },
                },
            },
    {
        match admission {
            Admission::Denied => {
                return Step::Respond(RequestOutcome::TooManyRequests);
            },
            Admission::Allowed => {},
        }
        let payload = match parsed {
            Ok(payload) => payload,
            Err(why) => {
                return Step::Respond(RequestOutcome::InvalidJson(why));
            },
        };
        if byte_len(payload.subject.as_str()) > self.config.max_subject {
            return Step::Respond(RequestOutcome::SubjectTooLong(self.config.max_subject));
        }
        if byte_len(payload.message.as_str()) > self.config.max_message {
            return Step::Respond(RequestOutcome::MessageTooLong(self.config.max_message));
        }
        match resolve(&payload, self.config.recipient_policy, &self.config.default_recipients) {
            Err(_) => Step::Respond(RequestOutcome::NoRecipient),
            Ok(recipients) => {
                let coordinator = DispatchCoordinator::new(&recipients);
                proof {
                    assert(recipients@.len() > 0);
                    assert(recipients@.contains(recipients@[0]));
                    assert(self.destinations(payload).contains(recipients@[0]));
                }
                Step::Dispatch {
                    coordinator,
                    subject: payload.subject,
                    message: payload.message,
                }
            },
        }
    }

    /// The last stage: the outcome of a fan-out that has settled.
    ///
    /// Any failure makes the request a failure that reports the summary;
    /// only when every send delivered is the request accepted.
    pub fn conclude(summary: AggregateOutcome) -> (outcome: RequestOutcome)
        ensures
            summary.failed == 0 ==> outcome == RequestOutcome::Accepted,
            summary.failed > 0 ==> outcome == RequestOutcome::EmailSendFailed(summary),
    {
        if summary.all_delivered() {
            RequestOutcome::Accepted
        } else {
            RequestOutcome::EmailSendFailed(summary)
        }
    }
}

} // verus!

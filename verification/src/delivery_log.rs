//! The line that records one send attempt in the delivery log.

use crate::mask::{mask_email, masked_email};
use vstd::prelude::*;

verus! {

/// The word for how a send ended.
pub open spec fn status_word(success: bool) -> Seq<char> {
    if success {
        "SUCCESS"@
    } else {
        "FAILED"@
    }
}

/// The log line of a send: when, how it ended, to whom and about what. The
/// recipient is masked; the message is not part of the line.
pub open spec fn log_line(
    timestamp: Seq<char>,
    recipient: Seq<char>,
    subject: Seq<char>,
    success: bool,
) -> Seq<char> {
    "["@ + timestamp + "] "@ + status_word(success) + " | To: "@ + masked_email(recipient)
        + " | Subject: "@ + subject
}

/// Writes the log line of a send that was attempted at `timestamp`.
pub fn delivery_log_line(timestamp: &str, recipient: &str, subject: &str, success: bool) -> (line:
    String)
    ensures
        line@ == log_line(timestamp@, recipient@, subject@, success),
{
    let mut line = String::from_str("[");
    line.append(timestamp);
    line.append("] ");
    line.append(
        if success {
            "SUCCESS"
        } else {
            "FAILED"
        },
    );
    line.append(" | To: ");
    let masked = mask_email(recipient);
    line.append(masked.as_str());
    line.append(" | Subject: ");
    line.append(subject);
    line
}

} // verus!

use contact_relay::recipients::{resolve, NoRecipientError, RecipientPolicy};
use contact_relay::types::RequestPayload;

fn strings(items: &[&str]) -> Vec<String> {
    items.iter().map(|s| s.to_string()).collect()
}

fn payload(recipients: Option<&[&str]>) -> RequestPayload {
    RequestPayload {
        subject: "hello".to_string(),
        message: "world".to_string(),
        recipients: recipients.map(strings),
    }
}

fn policy(allow_dynamic: bool, always_duplicate: bool) -> RecipientPolicy {
    RecipientPolicy { allow_dynamic, always_duplicate }
}

fn resolved(
    recipients: Option<&[&str]>,
    policy: RecipientPolicy,
    defaults: &[&str],
) -> Result<Vec<String>, NoRecipientError> {
    resolve(&payload(recipients), policy, &strings(defaults)).map(|r| r.as_vec().clone())
}

#[test]
fn resolution_ignores_order_and_duplicates() {
    let first = resolved(Some(&["b@x", "a@x", "a@x"]), policy(true, false), &[]);
    let second = resolved(Some(&["a@x", "b@x"]), policy(true, false), &[]);
    assert_eq!(first, Ok(strings(&["a@x", "b@x"])));
    assert_eq!(second, Ok(strings(&["a@x", "b@x"])));
}

#[test]
fn supplied_recipients_are_ignored_when_not_allowed() {
    assert_eq!(resolved(Some(&["x@y"]), policy(false, false), &[]), Err(NoRecipientError));
    assert_eq!(resolved(Some(&["x@y"]), policy(false, true), &[]), Err(NoRecipientError));
    assert_eq!(
        resolved(Some(&["x@y"]), policy(false, false), &["d@x"]),
        Ok(strings(&["d@x"]))
    );
}

#[test]
fn defaults_are_always_copied_when_asked() {
    assert_eq!(
        resolved(Some(&["c@x"]), policy(true, true), &["d@x"]),
        Ok(strings(&["c@x", "d@x"]))
    );
}

#[test]
fn defaults_fill_in_only_when_nothing_was_supplied() {
    assert_eq!(
        resolved(Some(&["c@x"]), policy(true, false), &["d@x"]),
        Ok(strings(&["c@x"]))
    );
    assert_eq!(resolved(None, policy(true, false), &["d@x"]), Ok(strings(&["d@x"])));
    assert_eq!(resolved(Some(&[]), policy(true, false), &["d@x"]), Ok(strings(&["d@x"])));
}

#[test]
fn blank_supplied_recipient_still_keeps_the_defaults_out() {
    // The list is not empty, so the defaults are not added; trimming then
    // leaves nothing.
    assert_eq!(resolved(Some(&["  "]), policy(true, false), &["d@x"]), Err(NoRecipientError));
}

#[test]
fn candidates_are_trimmed_and_blank_ones_dropped() {
    assert_eq!(
        resolved(Some(&["  b@x ", "", "\t", "a@x\n", "b@x"]), policy(true, false), &[]),
        Ok(strings(&["a@x", "b@x"]))
    );
    assert_eq!(
        resolved(Some(&["\u{3000}z@x\u{a0}"]), policy(true, false), &[]),
        Ok(strings(&["z@x"]))
    );
}

#[test]
fn order_is_by_scalar_value_as_strings_compare() {
    let mut expected = strings(&["b", "a", "B", "ab", "", "é", "z", "a b", "~", "日本", "a"]);
    expected.retain(|s| !s.is_empty());
    expected.sort();
    expected.dedup();
    assert_eq!(
        resolved(
            Some(&["b", "a", "B", "ab", "", "é", "z", "a b", "~", "日本", "a"]),
            policy(true, false),
            &[]
        ),
        Ok(expected)
    );
}

#[test]
fn nothing_to_resolve_is_an_error() {
    assert_eq!(resolved(None, policy(true, true), &[]), Err(NoRecipientError));
    assert_eq!(resolved(None, policy(false, false), &[" ", ""]), Err(NoRecipientError));
}

#[test]
fn resolved_recipients_report_their_length() {
    let r = resolve(&payload(Some(&["b@x", "a@x"])), policy(true, true), &strings(&["a@x"]))
        .expect("two addresses");
    assert_eq!(r.len(), 2);
}

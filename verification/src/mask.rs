//! Partial masking of secrets and addresses for diagnostics.

use crate::text::{chars_of, find, position, push_stars, stars};
use vstd::prelude::*;

verus! {

/// A text with all but its first `visible` characters masked.
///
/// An empty text is shown as `<empty>`. Otherwise the first `visible`
/// characters stay, and an asterisk stands for each of the others, with no
/// fewer than four asterisks in all. This is partial masking: what must not
/// be shown at all is replaced by [`concealed`] instead.
pub open spec fn masked_secret(secret: Seq<char>, visible: nat) -> Seq<char> {
    if secret.len() == 0 {
        "<empty>"@
    } else {
        let shown = if visible < secret.len() {
            visible
        } else {
            secret.len()
        };
        let hidden = (secret.len() - shown) as nat;
        secret.take(shown as int) + stars(
            if hidden < 4 {
                4
            } else {
                hidden
            },
        )
    }
}

/// An address as diagnostics may show it.
///
/// What stands before the first `@` keeps its first half, rounded up, and
/// gets an asterisk for each of the other characters, at least one; the `@`
/// and what follows it stay. Text without an `@` is masked as a secret that
/// shows two characters.
pub open spec fn masked_email(email: Seq<char>) -> Seq<char> {
    let at = position(email, '@');
    if 0 <= at < email.len() {
        let n = at as nat;
        let keep = (n + 1) / 2;
        email.take(keep as int) + stars(
            if n - keep < 1 {
                1
            } else {
                (n - keep) as nat
            },
        ) + email.skip(at)
    } else {
        masked_secret(email, 2)
    }
}

/// Masks `secret`, leaving its first `visible_prefix` characters readable.
/// A password is not to be put through this but through [`conceal`].
pub fn mask_secret(secret: &str, visible_prefix: usize) -> (masked: String)
    ensures
        masked@ == masked_secret(secret@, visible_prefix as nat),
{
    let n = secret.unicode_len();
    if n == 0 {
        return String::from_str("<empty>");
    }
    let shown: usize = if visible_prefix < n {
        visible_prefix
    } else {
        n
    };
    let hidden: usize = n - shown;
    let mut masked = secret.substring_char(0, shown).to_owned();
    assert(masked@ =~= secret@.take(shown as int));
    push_stars(
        &mut masked,
        if hidden < 4 {
            4
        } else {
            hidden
        },
    );
    masked
}

/// Masks the local part of `email`.
pub fn mask_email(email: &str) -> (masked: String)
    ensures
        masked@ == masked_email(email@),
{
    let cs = chars_of(email);
    let n = cs.len();
    assert(cs@.subrange(0, n as int) =~= email@);
    let at = find(&cs, 0, n, '@');
    if at >= n {
        return mask_secret(email, 2);
    }
    let keep: usize = at / 2 + at % 2;
    let mut masked = email.substring_char(0, keep).to_owned();
    assert(masked@ =~= email@.take(keep as int));
    push_stars(
        &mut masked,
        if at - keep < 1 {
            1
        } else {
            at - keep
        },
    );
    let tail = email.substring_char(at, n);
    assert(tail@ =~= email@.skip(at as int));
    masked.append(tail);
    masked
}

/// How many asterisks stand in place of a concealed secret.
pub const CONCEALED_LEN: usize = 8;

/// What diagnostics show in place of a secret that must not be shown at all:
/// a fixed run of asterisks, the same for every secret.
pub open spec fn concealed() -> Seq<char> {
    stars(CONCEALED_LEN as nat)
}

/// Whether `needle` stands somewhere in `text`, character for character.
pub open spec fn occurs_in(needle: Seq<char>, text: Seq<char>) -> bool {
    exists|k: int|
        0 <= k && k + needle.len() <= text.len() && #[trigger] text.subrange(
            k,
            k + needle.len(),
        ) == needle
}

/// The text that stands in place of a secret. It takes no secret, so it can
/// show none.
pub fn conceal() -> (shown: String)
    ensures
        shown@ == concealed(),
        shown@.len() == CONCEALED_LEN,
        forall|i: int| 0 <= i < shown@.len() ==> shown@[i] == '*',
{
    let mut shown = String::new();
    push_stars(&mut shown, CONCEALED_LEN);
    assert(shown@ =~= concealed());
    shown
}

/// A concealed secret is not shown. The text that stands in its place does
/// not hold the secret anywhere, unless the secret is itself nothing but a
/// few asterisks, no more than the text has.
pub proof fn law_concealed_shows_no_secret(secret: Seq<char>)
    requires
        secret.len() > 0,
        secret.len() > CONCEALED_LEN || exists|i: int| 0 <= i < secret.len() && secret[i] != '*',
    ensures
        !occurs_in(secret, concealed()),
{
    if occurs_in(secret, concealed()) {
        let k = choose|k: int|
            0 <= k && k + secret.len() <= concealed().len() && #[trigger] concealed().subrange(
                k,
                k + secret.len(),
            ) == secret;
        let i = choose|i: int| 0 <= i < secret.len() && secret[i] != '*';
        assert(concealed().subrange(k, k + secret.len())[i] == '*');
    }
}

} // verus!

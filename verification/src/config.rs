//! The settings of the service and their validation.

use crate::email::{email_like, looks_like_email};
use crate::logger::LogLevel;
use crate::mask::{conceal, concealed, mask_email, masked_email};
use crate::text::{
    blank, chars_of, clone_list, eq_ignoring_ascii_case, is_blank, same_ignoring_ascii_case,
    slices, split, split_bounds, trim_bounds, trimmed,
};
use vstd::prelude::*;

verus! {

/// The paths of the HTTP interface.
pub struct ApiPaths;

impl ApiPaths {
    pub const V1_PREFIX: &'static str = "/api/v1";

    pub const REQUEST: &'static str = "/request";

    pub const HEALTH: &'static str = "/health";

    pub const SWAGGER_UI: &'static str = "/docs";

    pub const OPENAPI_JSON: &'static str = "/openapi.json";
}

/// Why no usable configuration could be had.
#[derive(Debug)]
pub enum ConfigError {
    /// The sources could not be put together; the text says why.
    Build(String),
    /// The sources do not describe settings; the text says why.
    Deserialize(String),
    /// A setting has a value that cannot be used; the text says which.
    Invalid(String),
}

impl ConfigError {
    /// The error in words.
    pub open spec fn text(self) -> Seq<char> {
        match self {
            ConfigError::Build(why) => "config build error: "@ + why@,
            ConfigError::Deserialize(why) => "config deserialize error: "@ + why@,
            ConfigError::Invalid(why) => "invalid configuration: "@ + why@,
        }
    }

    /// Writes the error out in words.
    pub fn message(&self) -> (r: String)
        ensures
            r@ == self.text(),
    {
        match self {
            ConfigError::Build(why) => String::from_str("config build error: ").concat(
                why.as_str(),
            ),
            ConfigError::Deserialize(why) => String::from_str(
                "config deserialize error: ",
            ).concat(why.as_str()),
            ConfigError::Invalid(why) => String::from_str("invalid configuration: ").concat(
                why.as_str(),
            ),
        }
    }
}

/// Everything the service is configured with.
#[derive(Clone)]
pub struct Settings {
    pub port: u16,
    pub log_level: String,
    pub smtp_server: String,
    pub smtp_port: u16,
    pub smtp_user: String,
    pub smtp_password: String,
    pub allow_email_input: bool,
    pub duplicate_emails_to_deafult_recipients_everytime: bool,
    pub use_rate_limit: bool,
    pub rate_limit_timeframe_seconds: u32,
    pub rate_limit_max: u32,
    pub emails: Option<Vec<String>>,
    pub cors_origins: Option<Vec<String>>,
}

/// The index of the first member of `list` that does not look like an
/// address, or the length of `list` if all do.
pub open spec fn first_unlike(list: Seq<Seq<char>>) -> int
    decreases list.len(),
{
    if list.len() == 0 || !email_like(list[0]) {
        0
    } else {
        1 + first_unlike(list.drop_first())
    }
}

proof fn lemma_first_unlike(list: Seq<Seq<char>>, i: int)
    requires
        0 <= i <= list.len(),
        i < list.len() ==> !email_like(list[i]),
        forall|k: int| 0 <= k < i ==> email_like(list[k]),
    ensures
        first_unlike(list) == i,
    decreases list.len(),
{
    if i > 0 {
        let rest = list.drop_first();
        assert forall|k: int| 0 <= k < i - 1 implies email_like(rest[k]) by {
            assert(rest[k] == list[k + 1]);
        }
        lemma_first_unlike(rest, i - 1);
    }
}

impl Settings {
    /// What is wrong with these settings, if anything: the first of the
    /// checks, in this order, that they do not pass.
    pub open spec fn fault(&self) -> Option<Seq<char>> {
        if self.port == 0 {
            Some("port must be 1..=65535"@)
        } else if self.smtp_port == 0 {
            Some("smtp_port must be 1..=65535"@)
        } else if blank(self.smtp_server@) {
            Some("smtp_server is empty"@)
        } else if blank(self.smtp_user@) {
            Some("smtp_user is empty"@)
        } else if self.smtp_password@.len() == 0 {
            Some("smtp_password is empty"@)
        } else {
            match self.emails {
                Some(list) if first_unlike(list.deep_view()) < list.len() => Some(
                    "invalid email: "@ + list.deep_view()[first_unlike(list.deep_view())],
                ),
                _ => None,
            }
        }
    }

    /// Checks the settings: both ports are not zero, the mail server and user
    /// are not blank, the password is not empty, and every default recipient
    /// looks like an address.
    pub fn validate(&self) -> (r: Result<(), ConfigError>)
        ensures
            match r {
                Ok(_) => self.fault() is None,
                Err(e) => e matches ConfigError::Invalid(why) && self.fault() == Some(why@),
            },
    {
        if self.port == 0 {
            return Err(ConfigError::Invalid(String::from_str("port must be 1..=65535")));
        }
        if self.smtp_port == 0 {
            return Err(ConfigError::Invalid(String::from_str("smtp_port must be 1..=65535")));
        }
        if is_blank(self.smtp_server.as_str()) {
            return Err(ConfigError::Invalid(String::from_str("smtp_server is empty")));
        }
        if is_blank(self.smtp_user.as_str()) {
            return Err(ConfigError::Invalid(String::from_str("smtp_user is empty")));
        }
        if self.smtp_password.as_str().is_empty() {
            return Err(ConfigError::Invalid(String::from_str("smtp_password is empty")));
        }
        if let Some(list) = &self.emails {
            let mut i: usize = 0;
            while i < list.len()
                invariant
                    i <= list.len(),
                    self.emails == Some(*list),
                    self.port != 0,
                    self.smtp_port != 0,
                    !blank(self.smtp_server@),
                    !blank(self.smtp_user@),
                    self.smtp_password@.len() != 0,
                    forall|k: int| 0 <= k < i ==> email_like(list.deep_view()[k]),
                decreases list.len() - i,
            {
                if !looks_like_email(list[i].as_str()) {
                    proof {
                        lemma_first_unlike(list.deep_view(), i as int);
                    }
                    return Err(
                        ConfigError::Invalid(
                            String::from_str("invalid email: ").concat(list[i].as_str()),
                        ),
                    );
                }
                i += 1;
            }
            proof {
                lemma_first_unlike(list.deep_view(), i as int);
            }
        }
        Ok(())
    }
}

/// The pieces that count as items: each trimmed, blank ones left out.
pub open spec fn kept_items(pieces: Seq<Seq<char>>) -> Seq<Seq<char>>
    decreases pieces.len(),
{
    if pieces.len() == 0 {
        Seq::empty()
    } else {
        let rest = kept_items(pieces.drop_last());
        let item = trimmed(pieces.last());
        if item.len() > 0 {
            rest.push(item)
        } else {
            rest
        }
    }
}

/// The list that a comma-separated setting stands for. A setting that is
/// absent, or that names nothing, stands for no list at all.
pub open spec fn csv_items(value: Option<Seq<char>>) -> Option<Seq<Seq<char>>> {
    let text = match value {
        Some(s) => s,
        None => Seq::empty(),
    };
    let items = kept_items(split(text, ','));
    if items.len() == 0 {
        None
    } else {
        Some(items)
    }
}

/// Reads a comma-separated setting.
pub fn csv_to_vec(value: Option<&str>) -> (r: Option<Vec<String>>)
    ensures
        match r {
            Some(list) => csv_items(
                match value {
                    Some(s) => Some(s@),
                    None => None,
                },
            ) == Some(list.deep_view()),
            None => csv_items(
                match value {
                    Some(s) => Some(s@),
                    None => None,
                },
            ) is None,
        },
{
    proof {
        reveal_strlit("");
    }
    let text: &str = match value {
        Some(s) => s,
        None => "",
    };
    assert(text@ =~= match value {
        Some(s) => s@,
        None => Seq::empty(),
    });
    let cs = chars_of(text);
    assert(cs@.subrange(0, cs.len() as int) =~= text@);
    let pieces = split_bounds(&cs, 0, cs.len(), ',');
    let ghost all = split(text@, ',');
    let mut items: Vec<String> = Vec::new();
    let mut k: usize = 0;
    assert(all.take(0) =~= Seq::<Seq<char>>::empty());
    while k < pieces.len()
        invariant
            k <= pieces.len(),
            cs@ == text@,
            all == slices(cs@, pieces@),
            forall|j: int|
                0 <= j < pieces.len() ==> (#[trigger] pieces[j]).0 <= pieces[j].1 <= cs.len(),
            items.deep_view() == kept_items(all.take(k as int)),
        decreases pieces.len() - k,
    {
        let ghost before = items.deep_view();
        let (a, b) = trim_bounds(&cs, pieces[k].0, pieces[k].1);
        proof {
            assert(all.take(k as int + 1).drop_last() =~= all.take(k as int));
            assert(all.take(k as int + 1).last() == all[k as int]);
        }
        if a < b {
            let item = text.substring_char(a, b).to_owned();
            items.push(item);
            assert(items.deep_view() =~= before.push(trimmed(all[k as int])));
        }
        k += 1;
    }
    assert(all.take(k as int) =~= all);
    if items.len() == 0 {
        None
    } else {
        Some(items)
    }
}

impl Settings {
    /// The line that announces the settings in force, where it is to be
    /// logged: in a debug build, or when the log level is `debug` in any
    /// letter case.
    pub open spec fn effective_line(&self, debug_build: bool) -> Option<Seq<char>> {
        if debug_build || same_ignoring_ascii_case(self.log_level@, "debug"@) {
            Some(
                "Runtime mode: "@ + (if debug_build {
                    "debug"@
                } else {
                    "release"@
                }) + " | log_level: "@ + self.log_level@,
            )
        } else {
            None
        }
    }

    /// The line to log about the settings in force, if one is to be logged.
    pub fn log_effective(&self, debug_build: bool) -> (line: Option<String>)
        ensures
            match line {
                Some(text) => self.effective_line(debug_build) == Some(text@),
                None => self.effective_line(debug_build) is None,
            },
    {
        if !(debug_build || eq_ignoring_ascii_case(self.log_level.as_str(), "debug")) {
            return None;
        }
        let mut line = String::from_str("Runtime mode: ");
        line.append(
            if debug_build {
                "debug"
            } else {
                "release"
            },
        );
        line.append(" | log_level: ");
        line.append(self.log_level.as_str());
        Some(line)
    }

    /// The word that the configured log level puts into the log filter; a
    /// level that is not known counts as `warn`.
    pub open spec fn filter_word(&self) -> Seq<char> {
        match LogLevel::named(self.log_level@) {
            Some(level) => level.filter_text(),
            None => LogLevel::Warn.filter_text(),
        }
    }

    /// The log filter to install where the environment names none.
    pub fn log_filter(&self) -> (word: &'static str)
        ensures
            word@ == self.filter_word(),
    {
        match LogLevel::parse(self.log_level.as_str()) {
            Some(level) => level.as_filter_str(),
            None => LogLevel::Warn.as_filter_str(),
        }
    }

    /// Whether `shown` is what diagnostics may show of these settings: the
    /// mail user and the default recipients masked as addresses, a fixed
    /// run of asterisks in place of the password, everything else as it is.
    pub open spec fn redacted_as(&self, shown: Settings) -> bool {
        &&& shown.port == self.port
        &&& shown.log_level@ == self.log_level@
        &&& shown.smtp_server@ == self.smtp_server@
        &&& shown.smtp_port == self.smtp_port
        &&& shown.smtp_user@ == masked_email(self.smtp_user@)
        &&& shown.smtp_password@ == concealed()
        &&& shown.allow_email_input == self.allow_email_input
        &&& shown.duplicate_emails_to_deafult_recipients_everytime
            == self.duplicate_emails_to_deafult_recipients_everytime
        &&& shown.use_rate_limit == self.use_rate_limit
        &&& shown.rate_limit_timeframe_seconds == self.rate_limit_timeframe_seconds
        &&& shown.rate_limit_max == self.rate_limit_max
        &&& match (self.emails, shown.emails) {
            (Some(list), Some(masked)) => masked.deep_view() == list.deep_view().map_values(
                |a: Seq<char>| masked_email(a),
            ),
            (None, None) => true,
            _ => false,
        }
        &&& match (self.cors_origins, shown.cors_origins) {
            (Some(list), Some(copy)) => copy.deep_view() == list.deep_view(),
            (None, None) => true,
            _ => false,
        }
    }

    /// The settings as diagnostics may show them. Nothing of the password
    /// is in them: what stands in its place is asterisks only, and the same
    /// for every password.
    pub fn redacted(&self) -> (shown: Settings)
        ensures
            self.redacted_as(shown),
            forall|i: int|
                0 <= i < shown.smtp_password@.len() ==> shown.smtp_password@[i] == '*',
    {
        let emails = match &self.emails {
            Some(list) => {
                let mut masked: Vec<String> = Vec::new();
                let mut i: usize = 0;
                while i < list.len()
                    invariant
                        i <= list.len(),
                        masked.len() == i,
                        forall|k: int|
                            0 <= k < i ==> masked.deep_view()[k] == masked_email(
                                list.deep_view()[k],
                            ),
                    decreases list.len() - i,
                {
                    let ghost before = masked.deep_view();
                    masked.push(mask_email(list[i].as_str()));
                    assert(masked.deep_view() =~= before.push(
                        masked_email(list.deep_view()[i as int]),
                    ));
                    i += 1;
                }
                assert(masked.deep_view() =~= list.deep_view().map_values(
                    |a: Seq<char>| masked_email(a),
                ));
                Some(masked)
            },
            None => None,
        };
        let cors_origins = match &self.cors_origins {
            Some(list) => Some(clone_list(list)),
            None => None,
        };
        Settings {
            port: self.port,
            log_level: self.log_level.clone(),
            smtp_server: self.smtp_server.clone(),
            smtp_port: self.smtp_port,
            smtp_user: mask_email(self.smtp_user.as_str()),
            smtp_password: conceal(),
            allow_email_input: self.allow_email_input,
            duplicate_emails_to_deafult_recipients_everytime: self.duplicate_emails_to_deafult_recipients_everytime,
            use_rate_limit: self.use_rate_limit,
            rate_limit_timeframe_seconds: self.rate_limit_timeframe_seconds,
            rate_limit_max: self.rate_limit_max,
            emails,
            cors_origins,
        }
    }
}

} // verus!

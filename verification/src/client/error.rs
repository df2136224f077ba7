//! What can go wrong on the client's side.

use vstd::prelude::*;

use crate::text;

verus! {

/// Why the client gives up.
#[derive(Debug, PartialEq)]
pub enum ClientError {
    /// The configuration knows no such host.
    HostNotFound { name: String },
    /// The secret of the host could not be loaded.
    SecretNotLoaded { name: String },
    /// There is no configuration file at this path.
    ConfigNotFound { path: String },
    /// The arguments name neither a host nor an address with a secret.
    Usage,
    /// The configuration knows such a host already.
    HostExists { name: String },
    /// No random bytes could be had.
    NoRandomness { detail: String },
    /// Windows would have no length.
    WindowNotPositive,
    /// More knocks are asked for than a sequence can have.
    TooManyKnocks { count: usize },
    /// The system clock is before the Unix epoch.
    ClockBeforeEpoch,
}

/// The message for an error.
pub open spec fn error_text(error: ClientError) -> Seq<char> {
    match error {
        ClientError::HostNotFound { name } => "host '"@ + name@ + "' not found in config"@,
        ClientError::SecretNotLoaded { name } => "loading secret for host '"@ + name@ + "'"@,
        ClientError::ConfigNotFound { path } => "config file not found: "@ + path@
            + "\nUse 'kairos init' to create one, or use bare mode with --host-addr and --secret-file."@,
        ClientError::Usage =>
            "usage: kairos knock <HOST>  or  kairos knock --host-addr <ADDR> --secret-file <PATH>"@,
        ClientError::HostExists { name } => "host '"@ + name@ + "' already exists in config"@,
        ClientError::NoRandomness { detail } => "generating random secret: "@ + detail@,
        ClientError::WindowNotPositive => "window_secs must be positive"@,
        ClientError::TooManyKnocks { count } => "count "@ + text::decimal(count as nat)
            + " exceeds MAX_KNOCK_COUNT (16)"@,
        ClientError::ClockBeforeEpoch => "system clock is before the Unix epoch"@,
    }
}

impl ClientError {
    /// The message to show.
    pub fn message(&self) -> (text: String)
        ensures
            text@ == error_text(*self),
    {
        match self {
            ClientError::HostNotFound { name } => {
                let mut text = String::from_str("host '");
                text.append(name.as_str());
                text.append("' not found in config");
                text
            },
            ClientError::SecretNotLoaded { name } => {
                let mut text = String::from_str("loading secret for host '");
                text.append(name.as_str());
                text.append("'");
                text
            },
            ClientError::ConfigNotFound { path } => {
                let mut text = String::from_str("config file not found: ");
                text.append(path.as_str());
                text.append(
                    "\nUse 'kairos init' to create one, or use bare mode with --host-addr and --secret-file.",
                );
                text
            },
            ClientError::Usage => String::from_str(
                "usage: kairos knock <HOST>  or  kairos knock --host-addr <ADDR> --secret-file <PATH>",
            ),
            ClientError::HostExists { name } => {
                let mut text = String::from_str("host '");
                text.append(name.as_str());
                text.append("' already exists in config");
                text
            },
            ClientError::NoRandomness { detail } => {
                let mut text = String::from_str("generating random secret: ");
                text.append(detail.as_str());
                text
            },
            ClientError::WindowNotPositive => String::from_str("window_secs must be positive"),
            ClientError::TooManyKnocks { count } => {
                let mut text = String::from_str("count ");
                text.append(text::decimal_text(*count as u64).as_str());
                text.append(" exceeds MAX_KNOCK_COUNT (16)");
                text
            },
            ClientError::ClockBeforeEpoch => String::from_str(
                "system clock is before the Unix epoch",
            ),
        }
    }
}

/// The message for an error names what it is about, in full.
pub proof fn law_message_names_what_it_is_about(error: ClientError)
    ensures
        match error {
            ClientError::HostNotFound { name } => text::holds(error_text(error), name@),
            ClientError::SecretNotLoaded { name } => text::holds(error_text(error), name@),
            ClientError::ConfigNotFound { path } => text::holds(error_text(error), path@),
            ClientError::HostExists { name } => text::holds(error_text(error), name@),
            ClientError::NoRandomness { detail } => text::holds(error_text(error), detail@),
            ClientError::TooManyKnocks { count } => text::holds(
                error_text(error),
                text::decimal(count as nat),
            ),
            _ => true,
        },
{
    let whole = error_text(error);
    match error {
        ClientError::HostNotFound { name } => text::lemma_holds(
            whole,
            "host '"@,
            name@,
            "' not found in config"@,
        ),
        ClientError::SecretNotLoaded { name } => text::lemma_holds(
            whole,
            "loading secret for host '"@,
            name@,
            "'"@,
        ),
        ClientError::ConfigNotFound { path } => text::lemma_holds(
            whole,
            "config file not found: "@,
            path@,
            "\nUse 'kairos init' to create one, or use bare mode with --host-addr and --secret-file."@,
        ),
        ClientError::HostExists { name } => text::lemma_holds(
            whole,
            "host '"@,
            name@,
            "' already exists in config"@,
        ),
        ClientError::NoRandomness { detail } => {
            assert(whole =~= "generating random secret: "@ + detail@ + seq![]);
            text::lemma_holds(whole, "generating random secret: "@, detail@, seq![]);
        },
        ClientError::TooManyKnocks { count } => text::lemma_holds(
            whole,
            "count "@,
            text::decimal(count as nat),
            " exceeds MAX_KNOCK_COUNT (16)"@,
        ),
        _ => {},
    }
}

} // verus!

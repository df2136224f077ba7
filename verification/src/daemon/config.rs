//! Configuration of the daemon.

use vstd::prelude::*;

use crate::paths;
use crate::secret::{self, SecretKey};
use crate::sequence::MAX_KNOCK_COUNT;
use crate::text;

verus! {

/// Where systemd puts the decrypted credentials of the service.
pub const SYSTEMD_CREDENTIALS_DIR: &'static str = "/run/credentials/kairosd.service";

/// Fewest bytes that a secret may have.
pub const MIN_SECRET_LEN: usize = 7;

/// Fewest bytes that a secret should have.
pub const RECOMMENDED_SECRET_LEN: usize = 16;

/// A configuration as it is written down.
#[derive(Debug)]
pub struct RawConfig {
    pub window_secs: u64,
    pub knock_count: usize,
    pub skew: u64,
    pub open_secs: u64,
    pub interface: String,
    pub ssh_port: u16,
    pub log_filter: String,
    /// Path of the replay database.
    pub replay_db: Option<String>,
    pub users: Vec<RawUser>,
}

/// A user as written down, with one source for the secret.
#[derive(Debug)]
pub struct RawUser {
    pub name: String,
    /// The secret itself, in hexadecimal or as a passphrase.
    pub secret: Option<String>,
    /// Path of a file that holds the secret.
    pub secret_file: Option<String>,
    /// Name of the systemd credential that holds the secret.
    pub secret_credential: Option<String>,
}

/// Length of a window where none is given.
pub fn default_window() -> (secs: u64)
    ensures
        secs == 30,
{
    30
}

/// Number of knocks where none is given.
pub fn default_count() -> (count: usize)
    ensures
        count == 4,
{
    4
}

/// Number of windows tolerated on either side where none is given.
pub fn default_skew() -> (skew: u64)
    ensures
        skew == 1,
{
    1
}

/// How long the firewall stays open where nothing is given.
pub fn default_open_secs() -> (secs: u64)
    ensures
        secs == 60,
{
    60
}

/// Protected port where none is given.
pub fn default_ssh_port() -> (port: u16)
    ensures
        port == 22,
{
    22
}

/// Log filter where none is given.
pub fn default_log() -> (filter: String)
    ensures
        filter@ == "info"@,
{
    String::from_str("info")
}

/// A configuration that has passed validation, with all secrets loaded.
pub struct Config {
    pub window_secs: u64,
    pub knock_count: usize,
    pub skew: u64,
    pub open_secs: u64,
    pub interface: String,
    pub ssh_port: u16,
    pub log_filter: String,
    /// `None`: replay state is kept in memory only and lost on restart.
    pub replay_db: Option<String>,
    pub users: Vec<User>,
}

/// Someone who may knock.
pub struct User {
    pub name: String,
    pub secret: SecretKey,
}

/// A user's name and key.
pub struct Identity {
    pub name: Seq<char>,
    pub secret: Seq<u8>,
}

impl View for User {
    type V = Identity;

    open spec fn view(&self) -> Identity {
        Identity { name: self.name@, secret: self.secret@ }
    }
}

/// What of a configuration decides which sequences are knocks.
pub struct KnockRules {
    pub users: Seq<Identity>,
    pub knock_count: nat,
}

/// The rules for the given users and number of knocks.
pub open spec fn knock_rules(users: Seq<User>, knock_count: nat) -> KnockRules {
    KnockRules { users: users.map_values(|u: User| u@), knock_count }
}

impl Config {
    /// What of this configuration decides which sequences are knocks.
    pub open spec fn rules(&self) -> KnockRules {
        knock_rules(self.users@, self.knock_count as nat)
    }
}

/// What was found where a user's secret is kept.
#[derive(Clone, Copy)]
pub enum Contents<'a> {
    /// Nothing was looked for.
    NotNeeded,
    /// The text that was read.
    Text(&'a str),
    /// The file could not be read.
    Unreadable,
}

/// Why a configuration is refused.
#[derive(Debug, PartialEq)]
pub enum ConfigError {
    WindowNotPositive,
    TooFewKnocks,
    TooManyKnocks,
    NoUsers,
    DuplicateUser { user: String },
    NoSecret { user: String },
    SeveralSecrets { user: String },
    UnreadableFile { user: String, path: String },
    UnreadableCredential { user: String, name: String, path: String },
    ShortSecret { user: String, len: usize },
}

/// Why a configuration is refused, with texts as sequences of characters.
#[verifier::ext_equal]
pub enum Refusal {
    WindowNotPositive,
    TooFewKnocks,
    TooManyKnocks,
    NoUsers,
    DuplicateUser { user: Seq<char> },
    NoSecret { user: Seq<char> },
    SeveralSecrets { user: Seq<char> },
    UnreadableFile { user: Seq<char>, path: Seq<char> },
    UnreadableCredential { user: Seq<char>, name: Seq<char>, path: Seq<char> },
    ShortSecret { user: Seq<char>, len: nat },
}

impl View for ConfigError {
    type V = Refusal;

    open spec fn view(&self) -> Refusal {
        match *self {
            ConfigError::WindowNotPositive => Refusal::WindowNotPositive,
            ConfigError::TooFewKnocks => Refusal::TooFewKnocks,
            ConfigError::TooManyKnocks => Refusal::TooManyKnocks,
            ConfigError::NoUsers => Refusal::NoUsers,
            ConfigError::DuplicateUser { user } => Refusal::DuplicateUser { user: user@ },
            ConfigError::NoSecret { user } => Refusal::NoSecret { user: user@ },
            ConfigError::SeveralSecrets { user } => Refusal::SeveralSecrets { user: user@ },
            ConfigError::UnreadableFile { user, path } => Refusal::UnreadableFile {
                user: user@,
                path: path@,
            },
            ConfigError::UnreadableCredential { user, name, path } =>
                Refusal::UnreadableCredential { user: user@, name: name@, path: path@ },
            ConfigError::ShortSecret { user, len } => Refusal::ShortSecret {
                user: user@,
                len: len as nat,
            },
        }
    }
}

/// The path of the systemd credential `name`.
pub open spec fn credential_path(name: Seq<char>) -> Seq<char> {
    paths::joined(SYSTEMD_CREDENTIALS_DIR@, name, '/')
}

/// The path where a user's secret is kept, if it is kept in a file or credential and
/// nowhere else.
pub open spec fn secret_path(user: RawUser) -> Option<Seq<char>> {
    match (user.secret, user.secret_file, user.secret_credential) {
        (None, Some(path), None) => Some(path@),
        (None, None, Some(name)) => Some(credential_path(name@)),
        _ => None,
    }
}

/// The key of a user whose secret has one source.
pub open spec fn key_of(user: RawUser, contents: Contents<'_>) -> Seq<u8> {
    match (user.secret, contents) {
        (Some(inline), _) => secret::decoded_secret(inline@),
        (None, Contents::Text(text)) => secret::decoded_secret(text@),
        (None, _) => seq![],
    }
}

/// Why a user with the key `key` is refused, if so.
pub open spec fn length_refusal(user: Seq<char>, key: Seq<u8>) -> Option<Refusal> {
    if key.len() < MIN_SECRET_LEN {
        Some(Refusal::ShortSecret { user, len: key.len() })
    } else {
        None
    }
}

/// Why a user is refused, given what was found where the secret is kept, if so.
pub open spec fn user_refusal(user: RawUser, contents: Contents<'_>) -> Option<Refusal> {
    let name = user.name@;
    let read = contents is Text;
    match (user.secret, user.secret_file, user.secret_credential) {
        (Some(_), None, None) => length_refusal(name, key_of(user, contents)),
        (None, Some(path), None) => if read {
            length_refusal(name, key_of(user, contents))
        } else {
            Some(Refusal::UnreadableFile { user: name, path: path@ })
        },
        (None, None, Some(credential)) => if read {
            length_refusal(name, key_of(user, contents))
        } else {
            Some(
                Refusal::UnreadableCredential {
                    user: name,
                    name: credential@,
                    path: credential_path(credential@),
                },
            )
        },
        (None, None, None) => Some(Refusal::NoSecret { user: name }),
        _ => Some(Refusal::SeveralSecrets { user: name }),
    }
}

/// The path to read a user's secret from, if it is to be read.
pub fn path_to_read(user: &RawUser) -> (path: Option<String>)
    ensures
        secret_path(*user) == match path {
            Some(p) => Some(p@),
            None => None,
        },
{
    match (&user.secret, &user.secret_file, &user.secret_credential) {
        (None, Some(path), None) => Some(path.clone()),
        (None, None, Some(name)) => Some(
            paths::join_text(SYSTEMD_CREDENTIALS_DIR, name.as_str()),
        ),
        _ => None,
    }
}

/// Makes a user with the secret that `text` writes, unless it is too short.
fn keyed_user(name: String, text: &str) -> (outcome: Result<User, ConfigError>)
    ensures
        match outcome {
            Ok(user) => {
                &&& length_refusal(name@, secret::decoded_secret(text@)) is None
                &&& user@ == (Identity { name: name@, secret: secret::decoded_secret(text@) })
            },
            Err(e) => length_refusal(name@, secret::decoded_secret(text@)) == Some(e@),
        },
{
    let bytes = secret::decode_secret(text).unwrap();
    if bytes.len() < MIN_SECRET_LEN {
        return Err(ConfigError::ShortSecret { user: name, len: bytes.len() });
    }
    Ok(User { name, secret: SecretKey::from_bytes(bytes) })
}

/// Turns a user as written down into one with a loaded secret, given what was found where
/// the secret is kept.
pub fn resolve_user(raw: RawUser, contents: Contents<'_>) -> (outcome: Result<User, ConfigError>)
    ensures
        match outcome {
            Ok(user) => {
                &&& user_refusal(raw, contents) is None
                &&& user@ == (Identity { name: raw.name@, secret: key_of(raw, contents) })
            },
            Err(e) => user_refusal(raw, contents) == Some(e@),
        },
{
    let user = raw.name;
    match (raw.secret, raw.secret_file, raw.secret_credential) {
        (Some(inline), None, None) => keyed_user(user, inline.as_str()),
        (None, Some(path), None) => match contents {
            Contents::Text(text) => keyed_user(user, text),
            _ => Err(ConfigError::UnreadableFile { user, path }),
        },
        (None, None, Some(name)) => match contents {
            Contents::Text(text) => keyed_user(user, text),
            _ => {
                let path = paths::join_text(SYSTEMD_CREDENTIALS_DIR, name.as_str());
                Err(ConfigError::UnreadableCredential { user, name, path })
            },
        },
        (None, None, None) => Err(ConfigError::NoSecret { user }),
        _ => Err(ConfigError::SeveralSecrets { user }),
    }
}

/// The first of the first `n` users whose name an earlier one has, if there is any.
pub open spec fn first_duplicate(users: Seq<RawUser>, n: nat) -> Option<int>
    decreases n,
{
    if n == 0 {
        None
    } else if first_duplicate(users, (n - 1) as nat) is Some {
        first_duplicate(users, (n - 1) as nat)
    } else if exists|j: int| 0 <= j < n - 1 && (#[trigger] users[j]).name@ == users[n - 1].name@ {
        Some(n - 1)
    } else {
        None
    }
}

/// The first refusal among the first `n` users, if there is any.
pub open spec fn first_user_refusal(
    users: Seq<RawUser>,
    contents: Seq<Contents<'_>>,
    n: nat,
) -> Option<Refusal>
    decreases n,
{
    if n == 0 {
        None
    } else if first_user_refusal(users, contents, (n - 1) as nat) is Some {
        first_user_refusal(users, contents, (n - 1) as nat)
    } else {
        user_refusal(users[n - 1], contents[n - 1])
    }
}

/// Why a configuration is refused before any secret is looked at, if so.
pub open spec fn early_refusal(raw: RawConfig) -> Option<Refusal> {
    let users = raw.users@;
    if raw.window_secs == 0 {
        Some(Refusal::WindowNotPositive)
    } else if raw.knock_count < 2 {
        Some(Refusal::TooFewKnocks)
    } else if raw.knock_count > MAX_KNOCK_COUNT {
        Some(Refusal::TooManyKnocks)
    } else if users.len() == 0 {
        Some(Refusal::NoUsers)
    } else {
        match first_duplicate(users, users.len()) {
            Some(i) => Some(Refusal::DuplicateUser { user: users[i].name@ }),
            None => None,
        }
    }
}

/// Why a configuration is refused, given what was found where the secrets are kept, if so.
pub open spec fn config_refusal(raw: RawConfig, contents: Seq<Contents<'_>>) -> Option<Refusal> {
    if early_refusal(raw) is Some {
        early_refusal(raw)
    } else {
        first_user_refusal(raw.users@, contents, raw.users@.len())
    }
}

/// The users with their keys.
pub open spec fn identities(users: Seq<RawUser>, contents: Seq<Contents<'_>>) -> Seq<Identity> {
    Seq::new(
        users.len(),
        |i: int| Identity { name: users[i].name@, secret: key_of(users[i], contents[i]) },
    )
}

/// Checks what can be checked before any secret is read.
pub fn validate(raw: &RawConfig) -> (outcome: Result<(), ConfigError>)
    ensures
        early_refusal(*raw) == match outcome {
            Ok(_) => None,
            Err(e) => Some(e@),
        },
{
    if raw.window_secs == 0 {
        return Err(ConfigError::WindowNotPositive);
    }
    if raw.knock_count < 2 {
        return Err(ConfigError::TooFewKnocks);
    }
    if raw.knock_count > MAX_KNOCK_COUNT {
        return Err(ConfigError::TooManyKnocks);
    }
    if raw.users.len() == 0 {
        return Err(ConfigError::NoUsers);
    }
    let mut i: usize = 0;
    while i < raw.users.len()
        invariant
            i <= raw.users@.len(),
            raw.window_secs > 0,
            2 <= raw.knock_count <= MAX_KNOCK_COUNT,
            raw.users@.len() > 0,
            first_duplicate(raw.users@, i as nat) is None,
        decreases raw.users@.len() - i,
    {
        let mut j: usize = 0;
        while j < i
            invariant
                j <= i < raw.users@.len(),
                raw.window_secs > 0,
                2 <= raw.knock_count <= MAX_KNOCK_COUNT,
                first_duplicate(raw.users@, i as nat) is None,
                forall|k: int|
                    0 <= k < j ==> (#[trigger] raw.users@[k]).name@ != raw.users@[i as int].name@,
            decreases i - j,
        {
            if raw.users[j].name == raw.users[i].name {
                let user = raw.users[i].name.clone();
                proof {
                    lemma_first_duplicate(raw.users@, i as nat, j as int);
                }
                return Err(ConfigError::DuplicateUser { user });
            }
            j += 1;
        }
        i += 1;
    }
    Ok(())
}

proof fn lemma_first_duplicate(users: Seq<RawUser>, i: nat, j: int)
    requires
        0 <= j < i < users.len(),
        first_duplicate(users, i) is None,
        users[j].name@ == users[i as int].name@,
    ensures
        first_duplicate(users, users.len()) == Some(i as int),
{
    assert(first_duplicate(users, i + 1) == Some(i as int));
    lemma_first_duplicate_stays(users, i + 1, users.len());
}

proof fn lemma_first_duplicate_stays(users: Seq<RawUser>, m: nat, n: nat)
    requires
        m <= n,
        first_duplicate(users, m) is Some,
    ensures
        first_duplicate(users, n) == first_duplicate(users, m),
    decreases n,
{
    if m < n {
        lemma_first_duplicate_stays(users, m, (n - 1) as nat);
    }
}

proof fn lemma_first_user_refusal_stays(
    users: Seq<RawUser>,
    contents: Seq<Contents<'_>>,
    m: nat,
    n: nat,
)
    requires
        m <= n,
        first_user_refusal(users, contents, m) is Some,
    ensures
        first_user_refusal(users, contents, n) == first_user_refusal(users, contents, m),
    decreases n,
{
    if m < n {
        lemma_first_user_refusal_stays(users, contents, m, (n - 1) as nat);
    }
}

/// The message for a refusal.
pub open spec fn refusal_text(refusal: Refusal) -> Seq<char> {
    match refusal {
        Refusal::WindowNotPositive => "window_secs must be positive"@,
        Refusal::TooFewKnocks => "knock_count must be at least 2"@,
        Refusal::TooManyKnocks => "knock_count exceeds MAX_KNOCK_COUNT (16)"@,
        Refusal::NoUsers => "no users defined in config"@,
        Refusal::DuplicateUser { user } => "duplicate user name '"@ + user + "'"@,
        Refusal::NoSecret { user } => "user '"@ + user
            + "': one of 'secret', 'secret_file', or 'secret_credential' is required"@,
        Refusal::SeveralSecrets { user } => "user '"@ + user
            + "': only one of 'secret', 'secret_file', or 'secret_credential' may be set"@,
        Refusal::UnreadableFile { user, path } => "user '"@ + user + "': reading secret_file '"@
            + path + "'"@,
        Refusal::UnreadableCredential { user, name, path } => "user '"@ + user
            + "': reading systemd credential '"@ + name + "' from '"@ + path + "'"@,
        Refusal::ShortSecret { user, len } => "user '"@ + user + "': secret is only "@
            + text::decimal(len) + " bytes (minimum 7)"@,
    }
}

impl ConfigError {
    /// The message to show.
    pub fn message(&self) -> (text: String)
        ensures
            text@ == refusal_text(self@),
    {
        match self {
            ConfigError::WindowNotPositive => String::from_str("window_secs must be positive"),
            ConfigError::TooFewKnocks => String::from_str("knock_count must be at least 2"),
            ConfigError::TooManyKnocks => String::from_str(
                "knock_count exceeds MAX_KNOCK_COUNT (16)",
            ),
            ConfigError::NoUsers => String::from_str("no users defined in config"),
            ConfigError::DuplicateUser { user } => {
                let mut text = String::from_str("duplicate user name '");
                text.append(user.as_str());
                text.append("'");
                text
            },
            ConfigError::NoSecret { user } => {
                let mut text = String::from_str("user '");
                text.append(user.as_str());
                text.append(
                    "': one of 'secret', 'secret_file', or 'secret_credential' is required",
                );
                text
            },
            ConfigError::SeveralSecrets { user } => {
                let mut text = String::from_str("user '");
                text.append(user.as_str());
                text.append(
                    "': only one of 'secret', 'secret_file', or 'secret_credential' may be set",
                );
                text
            },
            ConfigError::UnreadableFile { user, path } => {
                let mut text = String::from_str("user '");
                text.append(user.as_str());
                text.append("': reading secret_file '");
                text.append(path.as_str());
                text.append("'");
                text
            },
            ConfigError::UnreadableCredential { user, name, path } => {
                let mut text = String::from_str("user '");
                text.append(user.as_str());
                text.append("': reading systemd credential '");
                text.append(name.as_str());
                text.append("' from '");
                text.append(path.as_str());
                text.append("'");
                text
            },
            ConfigError::ShortSecret { user, len } => {
                let mut text = String::from_str("user '");
                text.append(user.as_str());
                text.append("': secret is only ");
                text.append(text::decimal_text(*len as u64).as_str());
                text.append(" bytes (minimum 7)");
                text
            },
        }
    }
}

impl Config {
    /// Turns a configuration as written down into a valid one, given what was found where
    /// each user's secret is kept.
    #[verifier::loop_isolation(false)]
    pub fn from_raw(raw: RawConfig, contents: Vec<Contents<'_>>) -> (outcome: Result<
        Config,
        ConfigError,
    >)
        requires
            contents@.len() == raw.users@.len(),
        ensures
            match outcome {
                Ok(config) => {
                    &&& config_refusal(raw, contents@) is None
                    &&& config.window_secs == raw.window_secs
                    &&& config.knock_count == raw.knock_count
                    &&& config.skew == raw.skew
                    &&& config.open_secs == raw.open_secs
                    &&& config.interface == raw.interface
                    &&& config.ssh_port == raw.ssh_port
                    &&& config.log_filter == raw.log_filter
                    &&& config.replay_db == raw.replay_db
                    &&& config.rules().users == identities(raw.users@, contents@)
                },
                Err(e) => config_refusal(raw, contents@) == Some(e@),
            },
    {
        if let Err(e) = validate(&raw) {
            return Err(e);
        }
        let ghost listed = raw.users@;
        let ghost found = contents@;
        let ghost who = identities(listed, found);
        let mut waiting = raw.users;
        let mut texts = contents;
        let mut users: Vec<User> = Vec::new();
        while waiting.len() > 0
            invariant
                listed.len() == found.len(),
                users@.len() <= listed.len(),
                waiting@ == listed.skip(users@.len() as int),
                texts@ == found.skip(users@.len() as int),
                first_user_refusal(listed, found, users@.len()) is None,
                who == identities(listed, found),
                users@.map_values(|u: User| u@) == who.take(users@.len() as int),
            decreases waiting@.len(),
        {
            let ghost n = users@.len() as int;
            let user = waiting.remove(0);
            let text = texts.remove(0);
            match resolve_user(user, text) {
                Ok(user) => users.push(user),
                Err(e) => {
                    proof {
                        lemma_first_user_refusal_stays(
                            listed,
                            found,
                            (n + 1) as nat,
                            listed.len(),
                        );
                    }
                    return Err(e);
                },
            }
            assert(waiting@ =~= listed.skip(n + 1));
            assert(texts@ =~= found.skip(n + 1));
            assert(users@.map_values(|u: User| u@) =~= who.take(n + 1));
        }
        assert(who.take(users@.len() as int) =~= who);
        Ok(
            Config {
                window_secs: raw.window_secs,
                knock_count: raw.knock_count,
                skew: raw.skew,
                open_secs: raw.open_secs,
                interface: raw.interface,
                ssh_port: raw.ssh_port,
                log_filter: raw.log_filter,
                replay_db: raw.replay_db,
                users,
            },
        )
    }
}

/// What may be shown of a user whose name, in quotation marks, is `name`.
pub fn redacted_user(name: &str) -> (text: String)
    ensures
        text@ == "User { name: "@ + name@ + ", secret: SecretKey([redacted]) }"@,
{
    let mut text = String::from_str("User { name: ");
    text.append(name);
    text.append(", secret: SecretKey([redacted]) }");
    text
}

impl User {
    /// Whether the secret is shorter than it should be.
    pub fn has_short_secret(&self) -> (short: bool)
        ensures
            short == (self@.secret.len() < RECOMMENDED_SECRET_LEN),
    {
        self.secret.as_bytes().len() < RECOMMENDED_SECRET_LEN
    }

    /// What may be shown of a user: the name, and nothing of the secret.
    pub fn debug_text(&self) -> (text: String)
        ensures
            text@ == "User { name: "@ + text::debug_escaped(self@.name)
                + ", secret: SecretKey([redacted]) }"@,
    {
        redacted_user(text::quoted(self.name.as_str()).as_str())
    }
}

/// A configuration that is accepted can be used: its windows have a length, its sequences
/// can be derived, it has users, their names differ, and no secret is too short.
pub proof fn law_accepted_config_is_usable(raw: RawConfig, contents: Seq<Contents<'_>>)
    requires
        contents.len() == raw.users@.len(),
        config_refusal(raw, contents) is None,
    ensures
        raw.window_secs > 0,
        2 <= raw.knock_count <= MAX_KNOCK_COUNT,
        identities(raw.users@, contents).len() > 0,
        forall|i: int, j: int|
            0 <= i < j < raw.users@.len() ==> (#[trigger] identities(raw.users@, contents)[i]).name
                != (#[trigger] identities(raw.users@, contents)[j]).name,
        forall|i: int|
            0 <= i < raw.users@.len() ==> (#[trigger] identities(
                raw.users@,
                contents,
            )[i]).secret.len() >= MIN_SECRET_LEN,
{
    let users = raw.users@;
    let who = identities(users, contents);
    assert forall|i: int, j: int| 0 <= i < j < users.len() implies (#[trigger] who[i]).name != (
    #[trigger] who[j]).name by {
        lemma_no_duplicate(users, users.len(), i, j);
    }
    assert forall|i: int| 0 <= i < users.len() implies (#[trigger] who[i]).secret.len()
        >= MIN_SECRET_LEN by {
        lemma_no_user_refusal(users, contents, users.len(), i);
    }
}

proof fn lemma_no_duplicate(users: Seq<RawUser>, n: nat, i: int, j: int)
    requires
        first_duplicate(users, n) is None,
        0 <= i < j < n,
    ensures
        users[i].name@ != users[j].name@,
    decreases n,
{
    if j < n - 1 {
        lemma_no_duplicate(users, (n - 1) as nat, i, j);
    }
}

proof fn lemma_no_user_refusal(
    users: Seq<RawUser>,
    contents: Seq<Contents<'_>>,
    n: nat,
    i: int,
)
    requires
        first_user_refusal(users, contents, n) is None,
        0 <= i < n,
    ensures
        user_refusal(users[i], contents[i]) is None,
    decreases n,
{
    if i < n - 1 {
        lemma_no_user_refusal(users, contents, (n - 1) as nat, i);
    }
}

/// How many sources a user's secret has.
pub open spec fn number_of_sources(user: RawUser) -> int {
    (if user.secret is Some { 1int } else { 0 }) + (if user.secret_file is Some { 1int } else { 0 })
        + (if user.secret_credential is Some { 1int } else { 0 })
}

/// The text that a user's secret is written in, if it is known.
pub open spec fn known_text(user: RawUser, contents: Contents<'_>) -> Option<Seq<char>> {
    match (user.secret, contents) {
        (Some(inline), _) => Some(inline@),
        (None, Contents::Text(text)) => Some(text@),
        (None, _) => None,
    }
}

/// Whether a user can be taken: the secret has one source, is known, and has seven bytes at
/// least.
pub open spec fn is_fit(user: RawUser, contents: Contents<'_>) -> bool {
    &&& number_of_sources(user) == 1
    &&& known_text(user, contents) matches Some(text)
    &&& secret::decoded_secret(text).len() >= 7
}

/// A user is taken if and only if the secret has one source, is known, and is long enough;
/// else the refusal tells which of these fails. The key is the one that the secret's text
/// stands for, and nothing is read for a secret that is written down in place.
pub proof fn law_user_is_refused_for_a_reason(user: RawUser, contents: Contents<'_>)
    ensures
        user_refusal(user, contents) is None <==> is_fit(user, contents),
        number_of_sources(user) == 0 <==> user_refusal(user, contents) == Some(
            Refusal::NoSecret { user: user.name@ },
        ),
        number_of_sources(user) > 1 <==> user_refusal(user, contents) == Some(
            Refusal::SeveralSecrets { user: user.name@ },
        ),
        number_of_sources(user) == 1 ==> match known_text(user, contents) {
            Some(text) => {
                let key = secret::decoded_secret(text);
                &&& key_of(user, contents) == key
                &&& key.len() < 7 ==> user_refusal(user, contents) == Some(
                    Refusal::ShortSecret { user: user.name@, len: key.len() },
                )
            },
            None => match (user.secret_file, user.secret_credential) {
                (Some(path), _) => user_refusal(user, contents) == Some(
                    Refusal::UnreadableFile { user: user.name@, path: path@ },
                ),
                (None, Some(name)) => user_refusal(user, contents) == Some(
                    Refusal::UnreadableCredential {
                        user: user.name@,
                        name: name@,
                        path: credential_path(name@),
                    },
                ),
                (None, None) => false,
            },
        },
        secret_path(user) is Some <==> number_of_sources(user) == 1 && user.secret is None,
        secret_path(user) matches Some(path) ==> {
            ||| user.secret_file matches Some(file) && path == file@
            ||| user.secret_credential matches Some(name) && path == credential_path(name@)
        },
{
}

/// A credential lies in the directory where systemd puts those of the service.
pub proof fn law_credentials_lie_with_the_service(name: Seq<char>)
    requires
        name.len() == 0 || name[0] != '/',
    ensures
        credential_path(name) == "/run/credentials/kairosd.service/"@ + name,
{
    reveal_strlit("/run/credentials/kairosd.service");
    reveal_strlit("/run/credentials/kairosd.service/");
    assert("/run/credentials/kairosd.service"@.push('/')
        =~= "/run/credentials/kairosd.service/"@);
}

/// A configuration is accepted if and only if its windows have a length, its sequences have
/// two to sixteen ports, it has users, no two of one name, and each of them can be taken.
/// Each user then has the key that the secret's text stands for.
pub proof fn law_config_is_accepted(raw: RawConfig, contents: Seq<Contents<'_>>)
    requires
        contents.len() == raw.users@.len(),
    ensures
        config_refusal(raw, contents) is None <==> {
            &&& raw.window_secs > 0
            &&& 2 <= raw.knock_count <= 16
            &&& raw.users@.len() > 0
            &&& forall|i: int, j: int|
                0 <= i < j < raw.users@.len() ==> (#[trigger] raw.users@[i]).name@ != (
                #[trigger] raw.users@[j]).name@
            &&& forall|i: int|
                0 <= i < raw.users@.len() ==> is_fit(#[trigger] raw.users@[i], contents[i])
        },
        config_refusal(raw, contents) is None ==> {
            &&& identities(raw.users@, contents).len() == raw.users@.len()
            &&& forall|i: int|
                0 <= i < raw.users@.len() ==> {
                    let who = #[trigger] identities(raw.users@, contents)[i];
                    &&& who.name == raw.users@[i].name@
                    &&& known_text(raw.users@[i], contents[i]) matches Some(text)
                    &&& who.secret == secret::decoded_secret(text)
                }
        },
{
    let users = raw.users@;
    let n = users.len();
    if config_refusal(raw, contents) is None {
        assert forall|i: int, j: int| 0 <= i < j < n implies (#[trigger] users[i]).name@ != (
        #[trigger] users[j]).name@ by {
            lemma_no_duplicate(users, n, i, j);
        }
        assert forall|i: int| 0 <= i < n implies is_fit(#[trigger] users[i], contents[i]) by {
            lemma_no_user_refusal(users, contents, n, i);
            law_user_is_refused_for_a_reason(users[i], contents[i]);
        }
        assert forall|i: int| 0 <= i < n implies {
            let who = #[trigger] identities(users, contents)[i];
            &&& who.name == users[i].name@
            &&& known_text(users[i], contents[i]) matches Some(text)
            &&& who.secret == secret::decoded_secret(text)
        } by {
            assert(is_fit(users[i], contents[i]));
            law_user_is_refused_for_a_reason(users[i], contents[i]);
        }
    }
    if forall|i: int, j: int|
        0 <= i < j < n ==> (#[trigger] users[i]).name@ != (#[trigger] users[j]).name@ {
        lemma_all_names_differ(users, n);
    }
    if forall|i: int| 0 <= i < n ==> is_fit(#[trigger] users[i], contents[i]) {
        lemma_all_are_fit(users, contents, n);
    }
}

/// Where a configuration is refused, the refusal names what is wrong with it, in the order
/// in which its parts are looked at: its numbers, then the names of its users, then the
/// first user who cannot be taken.
pub proof fn law_config_is_refused_for_its_first_fault(
    raw: RawConfig,
    contents: Seq<Contents<'_>>,
) -> (i: int)
    requires
        contents.len() == raw.users@.len(),
        config_refusal(raw, contents) is Some,
    ensures
        ({
            let users = raw.users@;
            let refusal = config_refusal(raw, contents)->0;
            if raw.window_secs == 0 {
                refusal == Refusal::WindowNotPositive
            } else if raw.knock_count < 2 {
                refusal == Refusal::TooFewKnocks
            } else if raw.knock_count > 16 {
                refusal == Refusal::TooManyKnocks
            } else if users.len() == 0 {
                refusal == Refusal::NoUsers
            } else if refusal is DuplicateUser {
                &&& 0 <= i < users.len()
                &&& refusal == (Refusal::DuplicateUser { user: users[i].name@ })
                &&& exists|j: int| 0 <= j < i && (#[trigger] users[j]).name@ == users[i].name@
            } else {
                &&& 0 <= i < users.len()
                &&& Some(refusal) == user_refusal(users[i], contents[i])
                &&& forall|j: int| 0 <= j < i ==> is_fit(#[trigger] users[j], contents[j])
            }
        }),
{
    let users = raw.users@;
    if raw.window_secs == 0 || raw.knock_count < 2 || raw.knock_count > 16 || users.len() == 0 {
        0
    } else {
        match first_duplicate(users, users.len()) {
            Some(i) => {
                lemma_duplicate_is_one(users, users.len());
                i
            },
            None => lemma_first_refused(users, contents, users.len()),
        }
    }
}

proof fn lemma_duplicate_is_one(users: Seq<RawUser>, n: nat)
    requires
        n <= users.len(),
        first_duplicate(users, n) is Some,
    ensures
        ({
            let i = first_duplicate(users, n)->0;
            &&& 0 <= i < n
            &&& exists|j: int| 0 <= j < i && (#[trigger] users[j]).name@ == users[i].name@
        }),
    decreases n,
{
    if first_duplicate(users, (n - 1) as nat) is Some {
        lemma_duplicate_is_one(users, (n - 1) as nat);
    }
}

proof fn lemma_first_refused(users: Seq<RawUser>, contents: Seq<Contents<'_>>, n: nat) -> (i: int)
    requires
        n <= users.len(),
        first_user_refusal(users, contents, n) is Some,
    ensures
        0 <= i < n,
        first_user_refusal(users, contents, n) == user_refusal(users[i], contents[i]),
        forall|j: int| 0 <= j < i ==> is_fit(#[trigger] users[j], contents[j]),
    decreases n,
{
    let m = (n - 1) as nat;
    if first_user_refusal(users, contents, m) is Some {
        lemma_first_refused(users, contents, m)
    } else {
        assert forall|j: int| 0 <= j < m implies is_fit(#[trigger] users[j], contents[j]) by {
            lemma_no_user_refusal(users, contents, m, j);
            law_user_is_refused_for_a_reason(users[j], contents[j]);
        }
        m as int
    }
}

proof fn lemma_all_names_differ(users: Seq<RawUser>, n: nat)
    requires
        n <= users.len(),
        forall|i: int, j: int|
            0 <= i < j < users.len() ==> (#[trigger] users[i]).name@ != (#[trigger] users[j]).name@,
    ensures
        first_duplicate(users, n) is None,
    decreases n,
{
    if n > 0 {
        lemma_all_names_differ(users, (n - 1) as nat);
    }
}

proof fn lemma_all_are_fit(users: Seq<RawUser>, contents: Seq<Contents<'_>>, n: nat)
    requires
        n <= users.len(),
        forall|i: int| 0 <= i < users.len() ==> is_fit(#[trigger] users[i], contents[i]),
    ensures
        first_user_refusal(users, contents, n) is None,
    decreases n,
{
    if n > 0 {
        lemma_all_are_fit(users, contents, (n - 1) as nat);
        assert(is_fit(users[n - 1], contents[n - 1]));
        law_user_is_refused_for_a_reason(users[n - 1], contents[n - 1]);
    }
}

/// The rules of a configuration count every user, in order, with name and key.
pub proof fn law_rules_count_every_user(config: Config)
    ensures
        config.rules().knock_count == config.knock_count,
        config.rules().users.len() == config.users@.len(),
        forall|i: int|
            0 <= i < config.users@.len() ==> {
                let who = #[trigger] config.rules().users[i];
                who.name == config.users@[i].name@ && who.secret == config.users@[i].secret@
            },
{
}

/// The message for a refusal names the user, and what else it is about, in full.
pub proof fn law_message_names_the_user(refusal: Refusal)
    ensures
        match refusal {
            Refusal::DuplicateUser { user } => text::holds(refusal_text(refusal), user),
            Refusal::NoSecret { user } => text::holds(refusal_text(refusal), user),
            Refusal::SeveralSecrets { user } => text::holds(refusal_text(refusal), user),
            Refusal::UnreadableFile { user, path } => {
                &&& text::holds(refusal_text(refusal), user)
                &&& text::holds(refusal_text(refusal), path)
            },
            Refusal::UnreadableCredential { user, name, path } => {
                &&& text::holds(refusal_text(refusal), user)
                &&& text::holds(refusal_text(refusal), name)
                &&& text::holds(refusal_text(refusal), path)
            },
            Refusal::ShortSecret { user, len } => {
                &&& text::holds(refusal_text(refusal), user)
                &&& text::holds(refusal_text(refusal), text::decimal(len))
            },
            _ => true,
        },
{
    let whole = refusal_text(refusal);
    let a = "user '"@;
    match refusal {
        Refusal::DuplicateUser { user } => text::lemma_holds(
            whole,
            "duplicate user name '"@,
            user,
            "'"@,
        ),
        Refusal::NoSecret { user } => text::lemma_holds(
            whole,
            a,
            user,
            "': one of 'secret', 'secret_file', or 'secret_credential' is required"@,
        ),
        Refusal::SeveralSecrets { user } => text::lemma_holds(
            whole,
            a,
            user,
            "': only one of 'secret', 'secret_file', or 'secret_credential' may be set"@,
        ),
        Refusal::UnreadableFile { user, path } => {
            let b = "': reading secret_file '"@;
            let c = "'"@;
            assert(whole =~= a + user + (b + path + c));
            text::lemma_holds(whole, a, user, b + path + c);
            text::lemma_holds(whole, a + user + b, path, c);
        },
        Refusal::UnreadableCredential { user, name, path } => {
            let b = "': reading systemd credential '"@;
            let c = "' from '"@;
            let d = "'"@;
            assert(whole =~= a + user + (b + name + c + path + d));
            text::lemma_holds(whole, a, user, b + name + c + path + d);
            assert(whole =~= (a + user + b) + name + (c + path + d));
            text::lemma_holds(whole, a + user + b, name, c + path + d);
            text::lemma_holds(whole, a + user + b + name + c, path, d);
        },
        Refusal::ShortSecret { user, len } => {
            let b = "': secret is only "@;
            let c = " bytes (minimum 7)"@;
            let n = text::decimal(len);
            assert(whole =~= a + user + (b + n + c));
            text::lemma_holds(whole, a, user, b + n + c);
            text::lemma_holds(whole, a + user + b, n, c);
        },
        _ => {},
    }
}

} // verus!

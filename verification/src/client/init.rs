//! Onboarding: making or importing a secret and adding a host to the configuration.

use vstd::prelude::*;

use crate::client::config::{self, RawConfig};
use crate::client::error::ClientError;
use crate::clock::DEFAULT_WINDOW_SECS;
use crate::hexcode;
use crate::observed;
use crate::paths;
use crate::secret;
use crate::sequence::DEFAULT_KNOCK_COUNT;
use crate::text;

verus! {

/// The number of bytes of a new secret.
pub const NEW_SECRET_LEN: usize = 32;

/// The type `getrandom::Error`.
#[verifier::external_type_specification]
#[verifier::external_body]
pub struct ExRandomError(getrandom::Error);

/// Calls `getrandom::fill` on a buffer of `len` bytes. The bytes are random, or there is an
/// error; only their number is claimed, and that they were drawn.
#[verifier::external_body]
fn random_bytes(len: usize) -> (bytes: Result<Vec<u8>, getrandom::Error>)
    ensures
        bytes matches Ok(b) ==> b@.len() == len && observed::drawn(b@),
{
    let mut buf = vec![0u8; len];
    match getrandom::fill(&mut buf) {
        Ok(()) => Ok(buf),
        Err(e) => Err(e),
    }
}

/// Calls the `Display` of `getrandom::Error`. Nothing is claimed of the text, which may come
/// from the operating system, but that it is what such an error says.
#[verifier::external_body]
fn random_error_text(error: &getrandom::Error) -> (text: String)
    ensures
        observed::draw_failed(text@),
{
    format!("{}", error)
}

/// Writes down the secret that was drawn, in hexadecimal. Fails where nothing could be
/// drawn, for the reason given.
pub fn secret_of(drawn: Result<Vec<u8>, String>) -> (secret: Result<String, ClientError>)
    ensures
        match drawn {
            Ok(bytes) => secret is Ok && secret->Ok_0@ == hexcode::hex_text(bytes@),
            Err(detail) => secret == Err::<String, ClientError>(
                ClientError::NoRandomness { detail },
            ),
        },
{
    match drawn {
        Ok(bytes) => Ok(hexcode::encode(bytes.as_slice())),
        Err(detail) => Err(ClientError::NoRandomness { detail }),
    }
}

/// Makes a secret: 32 random bytes in hexadecimal.
pub fn generate_secret() -> (secret: Result<String, ClientError>)
    ensures
        match secret {
            Ok(text) => exists|bytes: Seq<u8>|
                bytes.len() == NEW_SECRET_LEN && observed::drawn(bytes) && text@
                    == #[trigger] hexcode::hex_text(bytes),
            Err(e) => {
                &&& e matches ClientError::NoRandomness { detail }
                &&& observed::draw_failed(detail@)
            },
        },
{
    let drawn = match random_bytes(NEW_SECRET_LEN) {
        Ok(bytes) => Ok(bytes),
        Err(e) => Err(random_error_text(&e)),
    };
    secret_of(drawn)
}

/// Checks that the configuration, if there is one, knows no host `name` yet.
pub fn check_host_not_exists(name: &str, config: Option<&RawConfig>) -> (outcome: Result<
    (),
    ClientError,
>)
    ensures
        match outcome {
            Ok(_) => !is_known(name@, config),
            Err(e) => {
                &&& is_known(name@, config)
                &&& e matches ClientError::HostExists { name: n }
                &&& n@ == name@
            },
        },
{
    if let Some(c) = config {
        if c.hosts.contains_key(name) {
            return Err(ClientError::HostExists { name: name.to_owned() });
        }
    }
    Ok(())
}

/// Whether the configuration knows a host `name`.
pub open spec fn is_known(name: Seq<char>, config: Option<&RawConfig>) -> bool {
    match config {
        Some(c) => c.hosts@.contains_key(name),
        None => false,
    }
}

/// The entry for a host in the configuration file. What is as by default is left out.
pub open spec fn entry_text(
    name: Seq<char>,
    hostname: Seq<char>,
    secret_file: Seq<char>,
    knock_count: usize,
    window_secs: u64,
) -> Seq<char> {
    "\n[hosts."@ + name + "]\nhostname    = \""@ + hostname + "\"\nsecret_file = \""@ + secret_file
        + "\"\n"@ + (if knock_count != DEFAULT_KNOCK_COUNT {
        "knock_count = "@ + text::decimal(knock_count as nat) + "\n"@
    } else {
        seq![]
    }) + (if window_secs != DEFAULT_WINDOW_SECS {
        "window_secs = "@ + text::decimal(window_secs as nat) + "\n"@
    } else {
        seq![]
    })
}

/// Writes the entry for a host in the configuration file.
pub fn host_entry(
    name: &str,
    hostname: &str,
    secret_file: &str,
    knock_count: usize,
    window_secs: u64,
) -> (entry: String)
    ensures
        entry@ == entry_text(name@, hostname@, secret_file@, knock_count, window_secs),
{
    let mut entry = String::from_str("\n[hosts.");
    entry.append(name);
    entry.append("]\nhostname    = \"");
    entry.append(hostname);
    entry.append("\"\nsecret_file = \"");
    entry.append(secret_file);
    entry.append("\"\n");
    if knock_count != DEFAULT_KNOCK_COUNT {
        let ghost front = entry@;
        entry.append("knock_count = ");
        entry.append(text::decimal_text(knock_count as u64).as_str());
        entry.append("\n");
        assert(entry@ =~= front + ("knock_count = "@ + text::decimal(knock_count as nat) + "\n"@));
    }
    if window_secs != DEFAULT_WINDOW_SECS {
        let ghost front = entry@;
        entry.append("window_secs = ");
        entry.append(text::decimal_text(window_secs).as_str());
        entry.append("\n");
        assert(entry@ =~= front + ("window_secs = "@ + text::decimal(window_secs as nat) + "\n"@));
    }
    assert(entry@ =~= entry_text(name@, hostname@, secret_file@, knock_count, window_secs));
    entry
}

/// What is to be done to add a host: write `secret` to a new file at `secret_path` that
/// only its owner may read, append `entry` to the configuration file, and show `report`.
pub struct Onboarding {
    pub secret_path: Vec<u8>,
    pub secret: String,
    pub entry: String,
    pub report: String,
}

/// The path of the secret of the host `name`, given the configuration directory of the
/// user.
pub open spec fn key_path(base: Option<Seq<u8>>, name: Seq<char>) -> Seq<u8> {
    paths::joined(
        config::secrets_under(base),
        vstd::utf8::encode_utf8(name + ".key"@),
        0x2fu8,
    )
}

/// How to have `ssh` knock by itself.
pub open spec fn ssh_text(name: Seq<char>, hostname: Seq<char>) -> Seq<char> {
    "--- SSH config ---\nAdd to ~/.ssh/config:\n\n  Match host "@ + name
        + " exec \"kairos knock "@ + name + "\"\n      Hostname "@ + hostname + "\n"@
}

/// What is shown after a secret was made.
pub open spec fn init_text(
    name: Seq<char>,
    hostname: Seq<char>,
    secret_path: Seq<char>,
    config_path: Seq<char>,
    secret: Seq<char>,
) -> Seq<char> {
    "Secret saved to "@ + secret_path + "\nHost added to "@ + config_path
        + "\n\n--- Server setup ---\nCopy the secret to the server and add to kairosd config:\n\n  [[users]]\n  name        = \""@
        + name + "\"\n  secret_file = \"/path/to/"@ + name + ".key\"\n\nSecret (hex):\n  "@ + secret
        + "\n\n"@ + ssh_text(name, hostname)
}

/// What is shown after a secret was imported.
pub open spec fn add_text(
    name: Seq<char>,
    hostname: Seq<char>,
    secret_path: Seq<char>,
    config_path: Seq<char>,
) -> Seq<char> {
    "Secret copied to "@ + secret_path + "\nHost added to "@ + config_path + "\n\n"@ + ssh_text(
        name,
        hostname,
    )
}

/// Whether `plan` adds the host `name` with the secret `secret`.
pub open spec fn adds_host(
    plan: Onboarding,
    name: Seq<char>,
    hostname: Seq<char>,
    knock_count: usize,
    window_secs: u64,
    base: Option<Seq<u8>>,
    secret: Seq<char>,
) -> bool {
    &&& plan.secret_path@ == key_path(base, name)
    &&& plan.secret@ == secret
    &&& plan.entry@ == entry_text(
        name,
        hostname,
        paths::lossy_text(key_path(base, name)),
        knock_count,
        window_secs,
    )
}

/// Whether `plan` adds the host `name` with a secret made from `bytes`, and says so.
pub open spec fn adds_new_host(
    plan: Onboarding,
    name: Seq<char>,
    hostname: Seq<char>,
    knock_count: usize,
    window_secs: u64,
    config_path: Seq<u8>,
    base: Option<Seq<u8>>,
    bytes: Seq<u8>,
) -> bool {
    let secret = hexcode::hex_text(bytes);
    &&& bytes.len() == NEW_SECRET_LEN
    &&& adds_host(plan, name, hostname, knock_count, window_secs, base, secret)
    &&& plan.report@ == init_text(
        name,
        hostname,
        paths::lossy_text(plan.secret_path@),
        paths::lossy_text(config_path),
        secret,
    )
}

/// Whether `plan` adds the host `name` with a secret made from bytes that were drawn.
pub open spec fn adds_some_new_host(
    plan: Onboarding,
    name: Seq<char>,
    hostname: Seq<char>,
    knock_count: usize,
    window_secs: u64,
    config_path: Seq<u8>,
) -> bool {
    exists|base: Option<Seq<u8>>, bytes: Seq<u8>|
        {
            &&& observed::config_dir(base)
            &&& observed::drawn(bytes)
            &&& #[trigger] adds_new_host(
                plan,
                name,
                hostname,
                knock_count,
                window_secs,
                config_path,
                base,
                bytes,
            )
        }
}

/// How to have `ssh` knock by itself.
fn ssh_snippet(name: &str, hostname: &str) -> (snippet: String)
    ensures
        snippet@ == ssh_text(name@, hostname@),
{
    let mut snippet = String::from_str(
        "--- SSH config ---\nAdd to ~/.ssh/config:\n\n  Match host ",
    );
    snippet.append(name);
    snippet.append(" exec \"kairos knock ");
    snippet.append(name);
    snippet.append("\"\n      Hostname ");
    snippet.append(hostname);
    snippet.append("\n");
    snippet
}

/// The path of the secret of the host `name`, given the configuration directory of the
/// user.
fn secret_path(base: Option<Vec<u8>>, name: &str) -> (path: Vec<u8>)
    ensures
        path@ == key_path(config::bytes_view(base), name@),
{
    let mut file = name.to_owned();
    file.append(".key");
    paths::join(config::secrets_dir_under(base).as_slice(), file.as_str().as_bytes())
}

/// Writes what is shown after a secret was made.
pub fn init_report(
    name: &str,
    hostname: &str,
    secret_path: &str,
    config_path: &str,
    secret: &str,
) -> (report: String)
    ensures
        report@ == init_text(name@, hostname@, secret_path@, config_path@, secret@),
{
    let mut report = String::from_str("Secret saved to ");
    report.append(secret_path);
    report.append("\nHost added to ");
    report.append(config_path);
    report.append(
        "\n\n--- Server setup ---\nCopy the secret to the server and add to kairosd config:\n\n  [[users]]\n  name        = \"",
    );
    report.append(name);
    report.append("\"\n  secret_file = \"/path/to/");
    report.append(name);
    report.append(".key\"\n\nSecret (hex):\n  ");
    report.append(secret);
    report.append("\n\n");
    report.append(ssh_snippet(name, hostname).as_str());
    report
}

/// Writes what is shown after a secret was imported.
pub fn add_report(name: &str, hostname: &str, secret_path: &str, config_path: &str) -> (report:
    String)
    ensures
        report@ == add_text(name@, hostname@, secret_path@, config_path@),
{
    let mut report = String::from_str("Secret copied to ");
    report.append(secret_path);
    report.append("\nHost added to ");
    report.append(config_path);
    report.append("\n\n");
    report.append(ssh_snippet(name, hostname).as_str());
    report
}

/// Plans to add a host with the new secret `secret`, given the configuration directory of
/// the user.
pub fn init_with(
    name: &str,
    hostname: &str,
    knock_count: usize,
    window_secs: u64,
    config_path: &[u8],
    base: Option<Vec<u8>>,
    secret: String,
) -> (plan: Onboarding)
    ensures
        adds_host(
            plan,
            name@,
            hostname@,
            knock_count,
            window_secs,
            config::bytes_view(base),
            secret@,
        ),
        plan.report@ == init_text(
            name@,
            hostname@,
            paths::lossy_text(plan.secret_path@),
            paths::lossy_text(config_path@),
            secret@,
        ),
{
    let secret_path = secret_path(base, name);
    let secret_shown = paths::shown(secret_path.as_slice());
    let entry = host_entry(name, hostname, secret_shown.as_str(), knock_count, window_secs);
    let report = init_report(
        name,
        hostname,
        secret_shown.as_str(),
        paths::shown(config_path).as_str(),
        secret.as_str(),
    );
    Onboarding { secret_path, secret, entry, report }
}

/// Plans to add a host with a secret made for it. Fails where the configuration knows a
/// host of that name, and where no random bytes can be had.
pub fn plan_init(
    name: &str,
    hostname: &str,
    knock_count: usize,
    window_secs: u64,
    config_path: &[u8],
    config: Option<&RawConfig>,
) -> (plan: Result<Onboarding, ClientError>)
    ensures
        plan matches Ok(p) ==> adds_some_new_host(
            p,
            name@,
            hostname@,
            knock_count,
            window_secs,
            config_path@,
        ),
        plan is Ok ==> !is_known(name@, config),
        plan matches Err(e) ==> if is_known(name@, config) {
            &&& e matches ClientError::HostExists { name: n }
            &&& n@ == name@
        } else {
            &&& e matches ClientError::NoRandomness { detail }
            &&& observed::draw_failed(detail@)
        },
{
    if let Err(e) = check_host_not_exists(name, config) {
        return Err(e);
    }
    let secret = match generate_secret() {
        Ok(secret) => secret,
        Err(e) => {
            return Err(e);
        },
    };
    let ghost bytes = choose|bytes: Seq<u8>|
        bytes.len() == NEW_SECRET_LEN && observed::drawn(bytes) && secret@
            == #[trigger] hexcode::hex_text(bytes);
    let base = config::user_config_dir();
    let onboarding = init_with(name, hostname, knock_count, window_secs, config_path, base, secret);
    assert(adds_new_host(
        onboarding,
        name@,
        hostname@,
        knock_count,
        window_secs,
        config_path@,
        config::bytes_view(base),
        bytes,
    ));
    Ok(onboarding)
}

/// Plans to add a host with the secret that a file with these contents holds, given the
/// configuration directory of the user.
pub fn add_with(
    name: &str,
    hostname: &str,
    contents: &str,
    knock_count: usize,
    window_secs: u64,
    config_path: &[u8],
    base: Option<Vec<u8>>,
) -> (plan: Onboarding)
    ensures
        adds_host(
            plan,
            name@,
            hostname@,
            knock_count,
            window_secs,
            config::bytes_view(base),
            text::trimmed(contents@),
        ),
        plan.report@ == add_text(
            name@,
            hostname@,
            paths::lossy_text(plan.secret_path@),
            paths::lossy_text(config_path@),
        ),
{
    let secret_path = secret_path(base, name);
    let secret_shown = paths::shown(secret_path.as_slice());
    let entry = host_entry(name, hostname, secret_shown.as_str(), knock_count, window_secs);
    let report = add_report(
        name,
        hostname,
        secret_shown.as_str(),
        paths::shown(config_path).as_str(),
    );
    Onboarding { secret_path, secret: contents.trim().to_owned(), entry, report }
}

/// Plans to add a host with the secret that a file with these contents holds. Fails where
/// the configuration knows a host of that name.
pub fn plan_add(
    name: &str,
    hostname: &str,
    contents: &str,
    knock_count: usize,
    window_secs: u64,
    config_path: &[u8],
    config: Option<&RawConfig>,
) -> (plan: Result<Onboarding, ClientError>)
    ensures
        match plan {
            Ok(p) => {
                &&& !is_known(name@, config)
                &&& exists|base: Option<Seq<u8>>|
                    observed::config_dir(base) && #[trigger] adds_host(
                        p,
                        name@,
                        hostname@,
                        knock_count,
                        window_secs,
                        base,
                        text::trimmed(contents@),
                    )
                &&& p.report@ == add_text(
                    name@,
                    hostname@,
                    paths::lossy_text(p.secret_path@),
                    paths::lossy_text(config_path@),
                )
            },
            Err(e) => {
                &&& is_known(name@, config)
                &&& e matches ClientError::HostExists { name: n }
                &&& n@ == name@
            },
        },
{
    if let Err(e) = check_host_not_exists(name, config) {
        return Err(e);
    }
    let base = config::user_config_dir();
    Ok(add_with(name, hostname, contents, knock_count, window_secs, config_path, base))
}

/// A secret that was made stands for the random bytes that it was made from: client and
/// daemon read the same key off it.
pub proof fn law_new_secret_stands_for_its_bytes(bytes: Seq<u8>)
    ensures
        secret::decoded_secret(hexcode::hex_text(bytes)) == bytes,
{
    let shown = hexcode::hex_text(bytes);
    hexcode::law_hex_round_trip(bytes);
    if shown.len() > 0 {
        assert(hexcode::is_hex_char(shown[0]));
        assert(hexcode::is_hex_char(shown.last()));
    }
    assert(text::trimmed(shown) == shown);
}

/// An imported secret stands for the same key as the file that it came from.
pub proof fn law_imported_secret_stands_for_the_same_key(contents: Seq<char>)
    ensures
        secret::decoded_secret(text::trimmed(contents)) == secret::decoded_secret(contents),
{
    text::law_trimming_is_idempotent(contents);
}

/// The entry for a host says all there is to say of it, and nothing else: name, host name and
/// secret file in full, number of knocks and length of windows where they are not four and
/// thirty.
pub proof fn law_entry_holds_every_field(
    name: Seq<char>,
    hostname: Seq<char>,
    secret_file: Seq<char>,
    knock_count: usize,
    window_secs: u64,
)
    ensures
        ({
            let entry = entry_text(name, hostname, secret_file, knock_count, window_secs);
            let count_line = "knock_count = "@ + text::decimal(knock_count as nat) + "\n"@;
            let window_line = "window_secs = "@ + text::decimal(window_secs as nat) + "\n"@;
            &&& text::stands_at(entry, "\n[hosts."@ + name + "]\n"@, 0)
            &&& text::holds(entry, "]\nhostname    = \""@ + hostname + "\"\nsecret_file = \""@)
            &&& text::holds(entry, "\nsecret_file = \""@ + secret_file + "\"\n"@)
            &&& knock_count != 4 ==> text::holds(entry, count_line)
            &&& window_secs != 30 ==> text::holds(entry, window_line)
            &&& entry.len() == "\n[hosts.]\nhostname    = \"\"\nsecret_file = \"\"\n"@.len()
                + name.len() + hostname.len() + secret_file.len() + (if knock_count != 4 {
                count_line.len()
            } else {
                0
            }) + (if window_secs != 30 {
                window_line.len()
            } else {
                0
            })
        }),
{
    reveal_strlit("\n[hosts.");
    reveal_strlit("]\n");
    reveal_strlit("]\nhostname    = \"");
    reveal_strlit("\"\nsecret_file = \"");
    reveal_strlit("\nsecret_file = \"");
    reveal_strlit("\"\n");
    reveal_strlit("\n[hosts.]\nhostname    = \"\"\nsecret_file = \"\"\n");
    let entry = entry_text(name, hostname, secret_file, knock_count, window_secs);
    let a = "\n[hosts."@;
    let b = "]\nhostname    = \""@;
    let c = "\"\nsecret_file = \""@;
    let d = "\"\n"@;
    let count = "knock_count = "@ + text::decimal(knock_count as nat) + "\n"@;
    let window = "window_secs = "@ + text::decimal(window_secs as nat) + "\n"@;
    let count_part = if knock_count != 4 {
        count
    } else {
        seq![]
    };
    let window_part = if window_secs != 30 {
        window
    } else {
        seq![]
    };
    let front = a + name + b + hostname + c + secret_file + d;
    assert(entry =~= front + count_part + window_part);
    let head = a + name + "]\n"@;
    assert(entry.subrange(0, head.len() as int) =~= head);
    assert(text::stands_at(entry, head, 0));
    assert(entry =~= (a + name) + (b + hostname + c) + (secret_file + d + count_part
        + window_part));
    text::lemma_holds(
        entry,
        a + name,
        b + hostname + c,
        secret_file + d + count_part + window_part,
    );
    let quote = seq!['"'];
    let file = "\nsecret_file = \""@ + secret_file + d;
    assert(c =~= quote + "\nsecret_file = \""@);
    assert(entry =~= (a + name + b + hostname + quote) + file + (count_part + window_part));
    text::lemma_holds(
        entry,
        a + name + b + hostname + quote,
        file,
        count_part + window_part,
    );
    if knock_count != 4 {
        text::lemma_holds(entry, front, count, window_part);
    }
    if window_secs != 30 {
        assert(entry =~= (front + count_part) + window + seq![]);
        text::lemma_holds(entry, front + count_part, window, seq![]);
    }
}

/// The secret of a host lies in the directory for secrets, under the whole name of the host.
pub proof fn law_secret_lies_under_the_name(base: Option<Seq<u8>>, name: Seq<char>)
    requires
        name.len() > 0,
        name[0] != '/',
    ensures
        key_path(base, name) == config::secrets_under(base) + seq![0x2fu8]
            + vstd::utf8::encode_utf8(name + ".key"@),
{
    config::lemma_secrets_under(base);
    paths::lemma_first_byte(name + ".key"@);
    paths::law_joined_path(
        config::secrets_under(base),
        vstd::utf8::encode_utf8(name + ".key"@),
        0x2fu8,
    );
}

/// The reports say where the secret went, how `ssh` is to be set up, and, of a new secret,
/// the secret itself in full.
pub proof fn law_reports_say_what_was_done(
    name: Seq<char>,
    hostname: Seq<char>,
    secret_path: Seq<char>,
    config_path: Seq<char>,
    secret: Seq<char>,
)
    ensures
        ({
            let made = init_text(name, hostname, secret_path, config_path, secret);
            let imported = add_text(name, hostname, secret_path, config_path);
            let ssh = ssh_text(name, hostname);
            &&& text::holds(made, "Secret (hex):\n  "@ + secret + "\n\n"@)
            &&& text::stands_at(
                made,
                "Secret saved to "@ + secret_path + "\nHost added to "@ + config_path,
                0,
            )
            &&& text::stands_at(
                imported,
                "Secret copied to "@ + secret_path + "\nHost added to "@ + config_path,
                0,
            )
            &&& text::stands_at(made, ssh, made.len() - ssh.len())
            &&& text::stands_at(imported, ssh, imported.len() - ssh.len())
            &&& text::holds(
                ssh,
                "Match host "@ + name + " exec \"kairos knock "@ + name + "\"\n      Hostname "@
                    + hostname + "\n"@,
            )
        }),
{
    let made = init_text(name, hostname, secret_path, config_path, secret);
    let imported = add_text(name, hostname, secret_path, config_path);
    let ssh = ssh_text(name, hostname);
    reveal_strlit(".key\"\n\nSecret (hex):\n  ");
    reveal_strlit("Secret (hex):\n  ");
    reveal_strlit(".key\"\n\n");
    assert(".key\"\n\nSecret (hex):\n  "@ =~= ".key\"\n\n"@ + "Secret (hex):\n  "@);
    reveal_strlit("--- SSH config ---\nAdd to ~/.ssh/config:\n\n  Match host ");
    reveal_strlit("--- SSH config ---\nAdd to ~/.ssh/config:\n\n  ");
    reveal_strlit("Match host ");
    assert("--- SSH config ---\nAdd to ~/.ssh/config:\n\n  Match host "@
        =~= "--- SSH config ---\nAdd to ~/.ssh/config:\n\n  "@ + "Match host "@);
    let head = "Secret saved to "@ + secret_path + "\nHost added to "@ + config_path;
    assert(made.subrange(0, head.len() as int) =~= head);
    assert(text::stands_at(made, head, 0));
    let other = "Secret copied to "@ + secret_path + "\nHost added to "@ + config_path;
    assert(imported.subrange(0, other.len() as int) =~= other);
    assert(text::stands_at(imported, other, 0));
    assert(made.subrange(made.len() - ssh.len(), made.len() as int) =~= ssh);
    assert(imported.subrange(imported.len() - ssh.len(), imported.len() as int) =~= ssh);
    let shown = "Secret (hex):\n  "@ + secret + "\n\n"@;
    let front = head
        + "\n\n--- Server setup ---\nCopy the secret to the server and add to kairosd config:\n\n  [[users]]\n  name        = \""@
        + name + "\"\n  secret_file = \"/path/to/"@ + name + ".key\"\n\n"@;
    assert(made =~= front + shown + ssh);
    text::lemma_holds(made, front, shown, ssh);
    let line = "Match host "@ + name + " exec \"kairos knock "@ + name + "\"\n      Hostname "@
        + hostname + "\n"@;
    assert(ssh =~= "--- SSH config ---\nAdd to ~/.ssh/config:\n\n  "@ + line + seq![]);
    text::lemma_holds(ssh, "--- SSH config ---\nAdd to ~/.ssh/config:\n\n  "@, line, seq![]);
}

/// A new secret has thirty-two bytes.
pub proof fn law_new_secret_length()
    ensures
        NEW_SECRET_LEN == 32,
{
}

/// A plan to add a host is complete: the secret is to be written whole to a file under the
/// name of the host, and the entry is that of the host with the path of that file. A new
/// secret stands for the bytes that were drawn.
pub proof fn law_plan_adds_the_whole_host(
    plan: Onboarding,
    name: Seq<char>,
    hostname: Seq<char>,
    knock_count: usize,
    window_secs: u64,
    config_path: Seq<u8>,
    base: Option<Seq<u8>>,
    secret: Seq<char>,
    bytes: Seq<u8>,
)
    requires
        adds_host(plan, name, hostname, knock_count, window_secs, base, secret),
    ensures
        plan.secret@ == secret,
        plan.secret_path@ == key_path(base, name),
        plan.entry@ == entry_text(
            name,
            hostname,
            paths::lossy_text(plan.secret_path@),
            knock_count,
            window_secs,
        ),
        adds_new_host(
            plan,
            name,
            hostname,
            knock_count,
            window_secs,
            config_path,
            base,
            bytes,
        ) ==> {
            &&& bytes.len() == 32
            &&& secret::decoded_secret(plan.secret@) == bytes
            &&& text::holds(plan.report@, plan.secret@)
            &&& text::holds(plan.report@, paths::lossy_text(plan.secret_path@))
            &&& text::holds(plan.report@, paths::lossy_text(config_path))
        },
{
    if adds_new_host(plan, name, hostname, knock_count, window_secs, config_path, base, bytes) {
        law_new_secret_stands_for_its_bytes(bytes);
        let report = plan.report@;
        let path = paths::lossy_text(plan.secret_path@);
        let config = paths::lossy_text(config_path);
        let a = "Secret saved to "@;
        let b = "\nHost added to "@;
        let c =
            "\n\n--- Server setup ---\nCopy the secret to the server and add to kairosd config:\n\n  [[users]]\n  name        = \""@;
        let d = "\"\n  secret_file = \"/path/to/"@;
        let e = ".key\"\n\nSecret (hex):\n  "@;
        let f = "\n\n"@;
        let ssh = ssh_text(name, hostname);
        let shown = plan.secret@;
        let middle = c + name + d + name + e;
        assert(report =~= a + path + (b + config + middle + shown + f + ssh));
        text::lemma_holds(report, a, path, b + config + middle + shown + f + ssh);
        assert(report =~= (a + path + b) + config + (middle + shown + f + ssh));
        text::lemma_holds(report, a + path + b, config, middle + shown + f + ssh);
        assert(report =~= (a + path + b + config + middle) + shown + (f + ssh));
        text::lemma_holds(report, a + path + b + config + middle, shown, f + ssh);
    }
}

/// A host is known if and only if there is a configuration with a host of that very name.
pub proof fn law_known_hosts(name: Seq<char>, config: RawConfig)
    ensures
        is_known(name, Some(&config)) <==> config.hosts@.contains_key(name),
        !is_known(name, None),
{
}

} // verus!

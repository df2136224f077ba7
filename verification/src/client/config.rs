//! Client configuration: where it is, and what it says about a host.

use vstd::prelude::*;

use crate::client::error::ClientError;
use crate::clock::DEFAULT_WINDOW_SECS;
use crate::observed;
use crate::paths;
use crate::secret::SecretKey;
use crate::sequence::DEFAULT_KNOCK_COUNT;
use crate::text;

verus! {

/// A configuration as it is written down.
#[derive(Debug)]
pub struct RawConfig {
    pub defaults: RawDefaults,
    pub hosts: HostMap,
}

/// What holds for hosts that say nothing else.
#[derive(Debug)]
pub struct RawDefaults {
    pub window_secs: u64,
    pub knock_count: usize,
}

/// A host as it is written down.
#[derive(Debug)]
pub struct RawHostConfig {
    pub hostname: String,
    pub secret_file: String,
    pub window_secs: Option<u64>,
    pub knock_count: Option<usize>,
}

/// Length of a window where none is given.
pub fn default_window() -> (secs: u64)
    ensures
        secs == DEFAULT_WINDOW_SECS,
{
    DEFAULT_WINDOW_SECS
}

/// Number of knocks where none is given.
pub fn default_count() -> (count: usize)
    ensures
        count == DEFAULT_KNOCK_COUNT,
{
    DEFAULT_KNOCK_COUNT
}

impl Default for RawDefaults {
    fn default() -> (defaults: RawDefaults)
        ensures
            defaults.window_secs == DEFAULT_WINDOW_SECS,
            defaults.knock_count == DEFAULT_KNOCK_COUNT,
    {
        RawDefaults { window_secs: DEFAULT_WINDOW_SECS, knock_count: DEFAULT_KNOCK_COUNT }
    }
}

#[derive(Debug)]
struct HostEntry {
    name: String,
    host: RawHostConfig,
}

/// Hosts by name.
#[derive(Debug)]
pub struct HostMap {
    entries: Vec<HostEntry>,
}

spec fn is_host(entries: Seq<HostEntry>, name: Seq<char>, i: int) -> bool {
    0 <= i < entries.len() && entries[i].name@ == name
}

spec fn distinct_names(entries: Seq<HostEntry>) -> bool {
    forall|n: Seq<char>, i: int, j: int| #[trigger]
        is_host(entries, n, i) && #[trigger] is_host(entries, n, j) ==> i == j
}

spec fn host_map(entries: Seq<HostEntry>) -> Map<Seq<char>, RawHostConfig> {
    Map::new(
        |n: Seq<char>| exists|i: int| is_host(entries, n, i),
        |n: Seq<char>| entries[choose|i: int| is_host(entries, n, i)].host,
    )
}

proof fn lemma_host_added(before: Seq<HostEntry>, after: Seq<HostEntry>, at: int, name: Seq<char>)
    requires
        distinct_names(before),
        0 <= at < after.len(),
        after[at].name@ == name,
        forall|i: int| 0 <= i < before.len() && i != at ==> #[trigger] after[i] == before[i],
        at < before.len() ==> after.len() == before.len() && before[at].name@ == name,
        at >= before.len() ==> after.len() == before.len() + 1 && at == before.len() && forall|
            i: int,
        |
            !is_host(before, name, i),
    ensures
        distinct_names(after),
        host_map(after) == host_map(before).insert(name, after[at].host),
{
    assert forall|n: Seq<char>, i: int| i != at && is_host(after, n, i) implies is_host(
        before,
        n,
        i,
    ) && n != name by {
        assert(after[i] == before[i]);
        assert(is_host(before, n, i));
        if at < before.len() && n == name {
            assert(is_host(before, n, at));
        }
    }
    assert forall|n: Seq<char>, i: int, j: int| #[trigger]
        is_host(after, n, i) && #[trigger] is_host(after, n, j) implies i == j by {
        if i != at && j != at {
            assert(is_host(before, n, i) && is_host(before, n, j));
        }
    }
    assert(is_host(after, name, at));
    let target = host_map(before).insert(name, after[at].host);
    assert forall|n: Seq<char>| #[trigger] target.contains_key(n) implies host_map(
        after,
    ).contains_key(n) && host_map(after)[n] == target[n] by {
        if n != name {
            let i = choose|i: int| is_host(before, n, i);
            assert(after[i] == before[i]);
            assert(is_host(after, n, i));
        }
        let k = choose|k: int| is_host(after, n, k);
        assert(is_host(after, n, k));
    }
    assert forall|n: Seq<char>| #[trigger]
        host_map(after).contains_key(n) implies target.contains_key(n) by {
        let i = choose|i: int| is_host(after, n, i);
        assert(is_host(after, n, i));
    }
    assert(host_map(after) =~= target);
}

impl View for HostMap {
    type V = Map<Seq<char>, RawHostConfig>;

    closed spec fn view(&self) -> Map<Seq<char>, RawHostConfig> {
        host_map(self.entries@)
    }
}

impl HostMap {
    /// No name is held twice.
    #[verifier::type_invariant]
    spec fn wf(self) -> bool {
        distinct_names(self.entries@)
    }

    /// No hosts.
    pub fn new() -> (hosts: HostMap)
        ensures
            hosts@ == Map::<Seq<char>, RawHostConfig>::empty(),
    {
        let hosts = HostMap { entries: Vec::new() };
        assert(hosts@ =~= Map::<Seq<char>, RawHostConfig>::empty());
        hosts
    }

    /// Whether there are no hosts.
    pub fn is_empty(&self) -> (empty: bool)
        ensures
            empty == (self@ == Map::<Seq<char>, RawHostConfig>::empty()),
    {
        if self.entries.len() == 0 {
            assert(self@ =~= Map::<Seq<char>, RawHostConfig>::empty());
            true
        } else {
            assert(is_host(self.entries@, self.entries@[0].name@, 0));
            assert(self@.contains_key(self.entries@[0].name@));
            false
        }
    }

    fn position(&self, name: &String) -> (found: Option<usize>)
        ensures
            match found {
                Some(i) => is_host(self.entries@, name@, i as int),
                None => forall|i: int| !is_host(self.entries@, name@, i),
            },
    {
        let mut i: usize = 0;
        while i < self.entries.len()
            invariant
                i <= self.entries@.len(),
                forall|j: int| 0 <= j < i ==> !is_host(self.entries@, name@, j),
            decreases self.entries@.len() - i,
        {
            if self.entries[i].name == *name {
                return Some(i);
            }
            i += 1;
        }
        None
    }

    /// What is written down about the host `name`.
    pub fn get(&self, name: &str) -> (host: Option<&RawHostConfig>)
        ensures
            host == if self@.contains_key(name@) {
                Some(&self@[name@])
            } else {
                None
            },
    {
        proof {
            use_type_invariant(self);
        }
        match self.position(&name.to_owned()) {
            Some(i) => Some(&self.entries[i].host),
            None => None,
        }
    }

    /// Whether there is a host `name`.
    pub fn contains_key(&self, name: &str) -> (known: bool)
        ensures
            known == self@.contains_key(name@),
    {
        self.get(name).is_some()
    }

    /// Adds the host `name`, in place of an earlier one of that name.
    pub fn insert(&mut self, name: String, host: RawHostConfig)
        ensures
            final(self)@ == old(self)@.insert(name@, host),
    {
        proof {
            use_type_invariant(&*self);
        }
        let place = self.position(&name);
        let mut entries: Vec<HostEntry> = Vec::new();
        std::mem::swap(&mut entries, &mut self.entries);
        let ghost before = entries@;
        let ghost text = name@;
        let entry = HostEntry { name, host };
        match place {
            Some(i) => {
                entries.set(i, entry);
            },
            None => {
                entries.push(entry);
            },
        }
        proof {
            let at = match place {
                Some(i) => i as int,
                None => before.len() as int,
            };
            lemma_host_added(before, entries@, at, text);
        }
        self.entries = entries;
        assert(self@ =~= old(self)@.insert(text, host));
    }
}

/// A host that can be knocked at.
pub struct ResolvedHost {
    pub hostname: String,
    pub secret: SecretKey,
    pub window_secs: u64,
    pub knock_count: usize,
}

/// What counts: an override, else what the host says, else the default.
pub open spec fn in_effect<T>(given: Option<T>, host: Option<T>, default: T) -> T {
    match (given, host) {
        (Some(t), _) => t,
        (None, Some(t)) => t,
        (None, None) => default,
    }
}

/// The file that holds the secret of the host `name`.
pub fn host_secret_file(config: &RawConfig, name: &str) -> (path: Result<String, ClientError>)
    ensures
        match path {
            Ok(p) => config.hosts@.contains_key(name@) && p@ == config.hosts@[name@].secret_file@,
            Err(e) => {
                &&& !config.hosts@.contains_key(name@)
                &&& e matches ClientError::HostNotFound { name: n }
                &&& n@ == name@
            },
        },
{
    match config.hosts.get(name) {
        Some(host) => Ok(host.secret_file.clone()),
        None => Err(ClientError::HostNotFound { name: name.to_owned() }),
    }
}

/// Whether `outcome` is what comes of resolving the host `name` with the given overrides and
/// its secret, if that could be loaded.
pub open spec fn is_resolved(
    outcome: Result<ResolvedHost, ClientError>,
    config: RawConfig,
    name: Seq<char>,
    window_override: Option<u64>,
    count_override: Option<usize>,
    secret: Option<Seq<u8>>,
) -> bool {
    match outcome {
        Ok(resolved) => {
            let host = config.hosts@[name];
            &&& config.hosts@.contains_key(name)
            &&& secret == Some(resolved.secret@)
            &&& resolved.hostname@ == host.hostname@
            &&& resolved.window_secs == in_effect(
                window_override,
                host.window_secs,
                config.defaults.window_secs,
            )
            &&& resolved.knock_count == in_effect(
                count_override,
                host.knock_count,
                config.defaults.knock_count,
            )
        },
        Err(e) => if config.hosts@.contains_key(name) {
            &&& secret is None
            &&& e matches ClientError::SecretNotLoaded { name: n }
            &&& n@ == name
        } else {
            &&& e matches ClientError::HostNotFound { name: n }
            &&& n@ == name
        },
    }
}

/// Resolves the host `name` with the given overrides and its secret, which is `None` where
/// it could not be loaded.
pub fn resolve_host(
    config: &RawConfig,
    name: &str,
    window_override: Option<u64>,
    count_override: Option<usize>,
    secret: Option<SecretKey>,
) -> (outcome: Result<ResolvedHost, ClientError>)
    ensures
        is_resolved(
            outcome,
            *config,
            name@,
            window_override,
            count_override,
            match secret {
                Some(key) => Some(key@),
                None => None,
            },
        ),
{
    match config.hosts.get(name) {
        Some(host) => {
            let window_secs = match (window_override, host.window_secs) {
                (Some(secs), _) => secs,
                (None, Some(secs)) => secs,
                (None, None) => config.defaults.window_secs,
            };
            let knock_count = match (count_override, host.knock_count) {
                (Some(count), _) => count,
                (None, Some(count)) => count,
                (None, None) => config.defaults.knock_count,
            };
            match secret {
                Some(secret) => Ok(
                    ResolvedHost {
                        hostname: host.hostname.clone(),
                        secret,
                        window_secs,
                        knock_count,
                    },
                ),
                None => Err(ClientError::SecretNotLoaded { name: name.to_owned() }),
            }
        },
        None => Err(ClientError::HostNotFound { name: name.to_owned() }),
    }
}

/// Calls `dirs::home_dir`: the bytes of the path of the user's home directory, if there is
/// one. Nothing is claimed of it but that it was named, since it depends on the environment.
#[verifier::external_body]
fn home_dir() -> (dir: Option<Vec<u8>>)
    ensures
        observed::home_dir(bytes_view(dir)),
{
    match dirs::home_dir() {
        Some(path) => Some(path.into_os_string().into_encoded_bytes()),
        None => None,
    }
}

/// Calls `dirs::config_dir`: the bytes of the path of the user's configuration directory,
/// if there is one. Nothing is claimed of it but that it was named, since it depends on the
/// environment.
#[verifier::external_body]
pub(crate) fn user_config_dir() -> (dir: Option<Vec<u8>>)
    ensures
        observed::config_dir(bytes_view(dir)),
{
    match dirs::config_dir() {
        Some(path) => Some(path.into_os_string().into_encoded_bytes()),
        None => None,
    }
}

/// Optional bytes as a sequence.
pub open spec fn bytes_view(bytes: Option<Vec<u8>>) -> Option<Seq<u8>> {
    match bytes {
        Some(b) => Some(b@),
        None => None,
    }
}

/// An optional text as a sequence of characters.
pub open spec fn text_view(text: Option<String>) -> Option<Seq<char>> {
    match text {
        Some(t) => Some(t@),
        None => None,
    }
}

/// The configuration directory of the client, given that of the user.
pub open spec fn dir_under(base: Option<Seq<u8>>) -> Seq<u8> {
    paths::joined(
        match base {
            Some(b) => b,
            None => vstd::utf8::encode_utf8("~/.config"@),
        },
        vstd::utf8::encode_utf8("kairos"@),
        0x2fu8,
    )
}

/// The directory for secrets, given the configuration directory of the user.
pub open spec fn secrets_under(base: Option<Seq<u8>>) -> Seq<u8> {
    paths::joined(dir_under(base), vstd::utf8::encode_utf8("secrets"@), 0x2fu8)
}

/// The configuration file: the one given on the command line, else the one that the
/// environment names, else that in the configuration directory.
pub open spec fn file_for(
    cli: Option<Seq<u8>>,
    env: Option<Seq<char>>,
    base: Option<Seq<u8>>,
) -> Seq<u8> {
    match (cli, env) {
        (Some(path), _) => path,
        (None, Some(path)) => vstd::utf8::encode_utf8(path),
        (None, None) => paths::joined(
            dir_under(base),
            vstd::utf8::encode_utf8("config.toml"@),
            0x2fu8,
        ),
    }
}

/// A path with a leading `~` taken as the home directory, if that is known: `~` alone, or
/// followed by a slash.
pub open spec fn expanded(path: Seq<char>, home: Option<Seq<u8>>) -> Seq<u8> {
    match home {
        Some(h) if path == seq!['~'] => h,
        Some(h) if path.len() >= 2 && path[0] == '~' && path[1] == '/' => paths::joined(
            h,
            vstd::utf8::encode_utf8(path.skip(2)),
            0x2fu8,
        ),
        _ => vstd::utf8::encode_utf8(path),
    }
}

/// The configuration directory of the client, given that of the user.
pub fn config_dir_under(base: Option<Vec<u8>>) -> (dir: Vec<u8>)
    ensures
        dir@ == dir_under(bytes_view(base)),
{
    match base {
        Some(b) => paths::join(b.as_slice(), "kairos".as_bytes()),
        None => paths::join("~/.config".as_bytes(), "kairos".as_bytes()),
    }
}

/// The configuration directory of the client.
pub fn config_dir() -> (dir: Vec<u8>)
    ensures
        exists|base: Option<Seq<u8>>|
            observed::config_dir(base) && dir@ == #[trigger] dir_under(base),
{
    let base = user_config_dir();
    config_dir_under(base)
}

/// The directory for secrets, given the configuration directory of the user.
pub fn secrets_dir_under(base: Option<Vec<u8>>) -> (dir: Vec<u8>)
    ensures
        dir@ == secrets_under(bytes_view(base)),
{
    paths::join(config_dir_under(base).as_slice(), "secrets".as_bytes())
}

/// The directory for secrets.
pub fn secrets_dir() -> (dir: Vec<u8>)
    ensures
        exists|base: Option<Seq<u8>>|
            observed::config_dir(base) && dir@ == #[trigger] secrets_under(base),
{
    let base = user_config_dir();
    secrets_dir_under(base)
}

/// The configuration file, given the one of the command line, the one that the environment
/// names, and the configuration directory of the user.
pub fn config_path_under(
    cli_config: Option<Vec<u8>>,
    env_config: Option<String>,
    base: Option<Vec<u8>>,
) -> (path: Vec<u8>)
    ensures
        path@ == file_for(
            bytes_view(cli_config),
            text_view(env_config),
            bytes_view(base),
        ),
{
    match (cli_config, env_config) {
        (Some(path), _) => path,
        (None, Some(path)) => vstd::slice::slice_to_vec(path.as_str().as_bytes()),
        (None, None) => paths::join(
            config_dir_under(base).as_slice(),
            "config.toml".as_bytes(),
        ),
    }
}

/// The configuration file, given the one of the command line and the one that the
/// environment names.
pub fn config_path(cli_config: Option<Vec<u8>>, env_config: Option<String>) -> (path: Vec<u8>)
    ensures
        exists|base: Option<Seq<u8>>|
            observed::config_dir(base) && path@ == #[trigger] file_for(
                bytes_view(cli_config),
                text_view(env_config),
                base,
            ),
{
    let base = user_config_dir();
    config_path_under(cli_config, env_config, base)
}

/// Takes a leading `~` as the home directory `home`, if that is known.
pub fn expand_tilde_in(path: &str, home: Option<Vec<u8>>) -> (full: Vec<u8>)
    ensures
        full@ == expanded(path@, bytes_view(home)),
{
    let len = path.unicode_len();
    if len == 1 && path.get_char(0) == '~' {
        assert(path@ =~= seq!['~']);
        if let Some(h) = home {
            return h;
        }
    } else if len >= 2 && path.get_char(0) == '~' && path.get_char(1) == '/' {
        if let Some(h) = home {
            let rest = path.substring_char(2, len);
            assert(rest@ =~= path@.skip(2));
            return paths::join(h.as_slice(), rest.as_bytes());
        }
    }
    vstd::slice::slice_to_vec(path.as_bytes())
}

/// Takes a leading `~` as the user's home directory.
fn expand_tilde(path: &str) -> (full: Vec<u8>)
    ensures
        exists|home: Option<Seq<u8>>|
            observed::home_dir(home) && full@ == #[trigger] expanded(path@, home),
{
    let home = home_dir();
    expand_tilde_in(path, home)
}

/// Takes a leading `~` as the user's home directory.
pub fn expand_tilde_pub(path: &str) -> (full: Vec<u8>)
    ensures
        exists|home: Option<Seq<u8>>|
            observed::home_dir(home) && full@ == #[trigger] expanded(path@, home),
{
    expand_tilde(path)
}

/// The warning about a secret file, written `path`, with the permission bits `mode`, if
/// group or others have any permission.
pub open spec fn warning_text(path: Seq<char>, mode: u32) -> Option<Seq<char>> {
    if mode % 64 == 0 {
        None
    } else {
        Some(
            "warning: secret file "@ + path + " has group/world permissions (mode "@
                + text::octal4((mode % 512) as nat) + ")"@,
        )
    }
}

/// The warning about a secret file, written `path`, with the permission bits `mode`, if
/// group or others have any permission.
pub fn permission_warning(path: &str, mode: u32) -> (warning: Option<String>)
    ensures
        text_view(warning) == warning_text(path@, mode),
{
    if mode % 64 == 0 {
        return None;
    }
    let mut text = String::from_str("warning: secret file ");
    text.append(path);
    text.append(" has group/world permissions (mode ");
    text.append(text::octal4_text(mode % 512).as_str());
    text.append(")");
    Some(text)
}

/// The lowest six of the permission bits are those of group and others.
pub proof fn law_low_bits_are_group_and_world(mode: u32)
    ensures
        mode % 64 == mode & 0o077,
        mode % 512 == mode & 0o777,
{
    assert(mode % 64 == mode & 0o077) by (bit_vector);
    assert(mode % 512 == mode & 0o777) by (bit_vector);
}

/// A path that does not lead with `~`, alone or before a slash, is left as it is, whatever
/// the home directory.
pub proof fn law_other_paths_stay(path: Seq<char>, home: Option<Seq<u8>>)
    requires
        path.len() == 0 || path[0] != '~' || path.len() > 1 && path[1] != '/',
    ensures
        expanded(path, home) == vstd::utf8::encode_utf8(path),
{
}

/// With a known home directory, which is an absolute path, every path that leads with `~`,
/// alone or before a slash, becomes an absolute one.
pub proof fn law_expanded_path_is_absolute(path: Seq<char>, home: Seq<u8>)
    requires
        path.len() >= 1,
        path[0] == '~',
        path.len() > 1 ==> path[1] == '/',
        home.len() > 0,
        home[0] == 0x2f,
    ensures
        expanded(path, Some(home)).len() > 0,
        expanded(path, Some(home))[0] == 0x2f,
{
    if path.len() == 1 {
        assert(path =~= seq!['~']);
    }
}

/// The configuration file of the command line comes before all others, and that of the
/// environment before the one in the configuration directory.
pub proof fn law_given_config_file_comes_first(
    cli: Seq<u8>,
    env: Seq<char>,
    any_env: Option<Seq<char>>,
    base: Option<Seq<u8>>,
)
    ensures
        file_for(Some(cli), any_env, base) == cli,
        file_for(None, Some(env), base) == vstd::utf8::encode_utf8(env),
{
}

/// An override comes before what the host says, and that before the default.
pub proof fn law_override_comes_first<T>(given: T, host: T, any: Option<T>, default: T)
    ensures
        in_effect(Some(given), any, default) == given,
        in_effect(None, Some(host), default) == host,
        in_effect(None, None, default) == default,
{
}

proof fn lemma_ascii(text: Seq<char>)
    requires
        forall|i: int| 0 <= i < text.len() ==> 0 <= #[trigger] text[i] as int <= 127,
    ensures
        vstd::utf8::encode_utf8(text) == Seq::new(text.len(), |i: int| text[i] as u8),
{
    vstd::utf8::is_ascii_chars_encode_utf8(text);
    assert(vstd::utf8::encode_utf8(text) =~= Seq::new(text.len(), |i: int| text[i] as u8));
}

/// The directory for secrets has a name of its own, whatever the base.
pub(crate) proof fn lemma_secrets_under(base: Option<Seq<u8>>)
    ensures
        secrets_under(base).len() > 0,
        secrets_under(base).last() == 0x73,
{
    reveal_strlit("secrets");
    lemma_ascii("secrets"@);
    assert(vstd::utf8::encode_utf8("secrets"@).last() == 0x73);
}

proof fn lemma_behind_slash(name: Seq<char>, behind: Seq<char>, base: Seq<u8>)
    requires
        forall|i: int| 0 <= i < behind.len() ==> 0 <= #[trigger] behind[i] as int <= 127,
        behind == seq!['/'] + name,
        name.len() > 0,
        name[0] != '/',
        base.len() > 0,
        base.last() != 0x2f,
    ensures
        paths::joined(base, vstd::utf8::encode_utf8(name), 0x2fu8) == base
            + vstd::utf8::encode_utf8(behind),
{
    assert forall|i: int| 0 <= i < name.len() implies 0 <= #[trigger] name[i] as int <= 127 by {
        assert(name[i] == behind[i + 1]);
    }
    lemma_ascii(name);
    lemma_ascii(behind);
    assert(paths::joined(base, vstd::utf8::encode_utf8(name), 0x2fu8) =~= base
        + vstd::utf8::encode_utf8(behind));
}

/// Everything of the client lies in a directory of its own below the configuration directory
/// of the user, and where that is not known below `~/.config`.
pub proof fn law_directories_lie_below_the_base(base: Seq<u8>)
    requires
        base.len() > 0,
        base.last() != 0x2f,
    ensures
        dir_under(Some(base)) == base + vstd::utf8::encode_utf8("/kairos"@),
        secrets_under(Some(base)) == base + vstd::utf8::encode_utf8("/kairos"@)
            + vstd::utf8::encode_utf8("/secrets"@),
        file_for(None, None, Some(base)) == base + vstd::utf8::encode_utf8("/kairos"@)
            + vstd::utf8::encode_utf8("/config.toml"@),
        dir_under(None) == dir_under(Some(vstd::utf8::encode_utf8("~/.config"@))),
        secrets_under(None) == secrets_under(Some(vstd::utf8::encode_utf8("~/.config"@))),
        file_for(None, None, None) == file_for(
            None,
            None,
            Some(vstd::utf8::encode_utf8("~/.config"@)),
        ),
{
    reveal_strlit("kairos");
    reveal_strlit("/kairos");
    reveal_strlit("secrets");
    reveal_strlit("/secrets");
    reveal_strlit("config.toml");
    reveal_strlit("/config.toml");
    assert("/kairos"@ =~= seq!['/'] + "kairos"@);
    assert("/secrets"@ =~= seq!['/'] + "secrets"@);
    assert("/config.toml"@ =~= seq!['/'] + "config.toml"@);
    lemma_behind_slash("kairos"@, "/kairos"@, base);
    let dir = dir_under(Some(base));
    lemma_ascii("/kairos"@);
    assert(dir.last() == 's' as u8);
    lemma_behind_slash("secrets"@, "/secrets"@, dir);
    lemma_behind_slash("config.toml"@, "/config.toml"@, dir);
}

/// What follows `~/` lies in the home directory, in full; `~` is the home directory itself;
/// and where no home directory is known every path is left as it is.
pub proof fn law_tilde_stands_for_home(home: Seq<u8>, rest: Seq<char>, path: Seq<char>)
    requires
        home.len() > 0,
        home.last() != 0x2f,
        rest.len() > 0,
        rest[0] != '/',
    ensures
        expanded("~/"@ + rest, Some(home)) == home + seq![0x2fu8] + vstd::utf8::encode_utf8(rest),
        expanded("~"@, Some(home)) == home,
        expanded(path, None) == vstd::utf8::encode_utf8(path),
{
    reveal_strlit("~/");
    reveal_strlit("~");
    assert("~"@ =~= seq!['~']);
    let whole = "~/"@ + rest;
    assert(whole.skip(2) =~= rest);
    let bytes = vstd::utf8::encode_utf8(rest);
    paths::lemma_first_byte(rest);
    assert(paths::joined(home, bytes, 0x2fu8) =~= home + seq![0x2fu8] + bytes);
}

/// A host is resolved if and only if it is configured and its secret was loaded. An override
/// comes before what is written down of the host, that before what is written down for all,
/// and the host name and the secret are the host's own.
pub proof fn law_host_is_resolved(
    outcome: Result<ResolvedHost, ClientError>,
    config: RawConfig,
    name: Seq<char>,
    window_override: Option<u64>,
    count_override: Option<usize>,
    secret: Option<Seq<u8>>,
)
    requires
        is_resolved(outcome, config, name, window_override, count_override, secret),
    ensures
        outcome is Ok <==> config.hosts@.contains_key(name) && secret is Some,
        outcome matches Ok(resolved) ==> {
            let host = config.hosts@[name];
            &&& resolved.hostname@ == host.hostname@
            &&& secret == Some(resolved.secret@)
            &&& window_override matches Some(secs) ==> resolved.window_secs == secs
            &&& window_override is None && host.window_secs is Some ==> host.window_secs == Some(
                resolved.window_secs,
            )
            &&& window_override is None && host.window_secs is None ==> resolved.window_secs
                == config.defaults.window_secs
            &&& count_override matches Some(count) ==> resolved.knock_count == count
            &&& count_override is None && host.knock_count is Some ==> host.knock_count == Some(
                resolved.knock_count,
            )
            &&& count_override is None && host.knock_count is None ==> resolved.knock_count
                == config.defaults.knock_count
        },
        outcome matches Err(ClientError::HostNotFound { name: n }) ==> n@ == name
            && !config.hosts@.contains_key(name),
        outcome matches Err(ClientError::SecretNotLoaded { name: n }) ==> n@ == name
            && config.hosts@.contains_key(name),
{
}

/// There is a warning if and only if group or others have any permission, and it names the
/// file and its permission bits.
pub proof fn law_warning_is_about_group_and_world(path: Seq<char>, mode: u32)
    ensures
        warning_text(path, mode) is Some <==> mode & 0o077 != 0,
        warning_text(path, mode) matches Some(warning) ==> {
            &&& text::holds(warning, path)
            &&& text::holds(warning, text::octal4((mode & 0o777) as nat))
        },
{
    law_low_bits_are_group_and_world(mode);
    if let Some(warning) = warning_text(path, mode) {
        let a = "warning: secret file "@;
        let b = " has group/world permissions (mode "@;
        let c = ")"@;
        let bits = text::octal4((mode % 512) as nat);
        assert(warning =~= a + path + (b + bits + c));
        text::lemma_holds(warning, a, path, b + bits + c);
        text::lemma_holds(warning, a + path + b, bits, c);
    }
}

} // verus!

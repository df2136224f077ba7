//! What the client's command line asks for.

use vstd::prelude::*;

use crate::client::error::ClientError;
use crate::clock::DEFAULT_WINDOW_SECS;
use crate::sequence::DEFAULT_KNOCK_COUNT;

verus! {

/// The arguments of `kairos knock`.
#[derive(Debug)]
pub struct KnockArgs {
    /// Name of a configured host.
    pub host: Option<String>,
    /// Address to knock at without a configuration.
    pub host_addr: Option<String>,
    /// Path of the secret to knock with, without a configuration.
    pub secret_file: Option<String>,
    pub window_secs: Option<u64>,
    pub knock_count: Option<usize>,
}

/// What `kairos knock` is to do.
#[derive(Debug, PartialEq)]
pub enum KnockRequest {
    /// Knock at a configured host.
    Configured { name: String, window_override: Option<u64>, count_override: Option<usize> },
    /// Knock at an address with the secret in a file.
    Bare { addr: String, secret_file: String, window_secs: u64, knock_count: usize },
}

/// What `kairos knock` is to do with these arguments.
pub open spec fn requested(args: KnockArgs) -> Result<KnockRequest, ClientError> {
    match (args.host, args.host_addr, args.secret_file) {
        (Some(host), None, None) => Ok(
            KnockRequest::Configured {
                name: host,
                window_override: args.window_secs,
                count_override: args.knock_count,
            },
        ),
        (None, Some(host_addr), Some(file)) => Ok(
            KnockRequest::Bare {
                addr: host_addr,
                secret_file: file,
                window_secs: match args.window_secs {
                    Some(secs) => secs,
                    None => DEFAULT_WINDOW_SECS,
                },
                knock_count: match args.knock_count {
                    Some(count) => count,
                    None => DEFAULT_KNOCK_COUNT,
                },
            },
        ),
        _ => Err(ClientError::Usage),
    }
}

/// Decides what `kairos knock` is to do: a host alone is a configured one, an address goes
/// with a secret file, and nothing else is accepted.
pub fn knock_request(args: KnockArgs) -> (request: Result<KnockRequest, ClientError>)
    ensures
        request == requested(args),
{
    match (args.host, args.host_addr, args.secret_file) {
        (Some(name), None, None) => Ok(
            KnockRequest::Configured {
                name,
                window_override: args.window_secs,
                count_override: args.knock_count,
            },
        ),
        (None, Some(addr), Some(secret_file)) => Ok(
            KnockRequest::Bare {
                addr,
                secret_file,
                window_secs: match args.window_secs {
                    Some(secs) => secs,
                    None => DEFAULT_WINDOW_SECS,
                },
                knock_count: match args.knock_count {
                    Some(count) => count,
                    None => DEFAULT_KNOCK_COUNT,
                },
            },
        ),
        _ => Err(ClientError::Usage),
    }
}

/// A request is for a configured host if and only if a host alone is named, for an address if
/// and only if that and a secret file are, and refused in every other case. It asks for what
/// the arguments say, and at an address for thirty seconds and four knocks where they say
/// nothing.
pub proof fn law_arguments_decide_the_request(args: KnockArgs)
    ensures
        requested(args) is Err <==> !(args.host is Some && args.host_addr is None
            && args.secret_file is None) && !(args.host is None && args.host_addr is Some
            && args.secret_file is Some),
        requested(args) matches Err(e) ==> e == ClientError::Usage,
        match requested(args) {
            Ok(KnockRequest::Configured { name, window_override, count_override }) => {
                &&& args.host == Some(name)
                &&& window_override == args.window_secs
                &&& count_override == args.knock_count
            },
            Ok(KnockRequest::Bare { addr, secret_file, window_secs, knock_count }) => {
                &&& args.host is None
                &&& args.host_addr == Some(addr)
                &&& args.secret_file == Some(secret_file)
                &&& args.window_secs is None ==> window_secs == 30
                &&& args.window_secs is Some ==> args.window_secs == Some(window_secs)
                &&& args.knock_count is None ==> knock_count == 4
                &&& args.knock_count is Some ==> args.knock_count == Some(knock_count)
            },
            Err(_) => true,
        },
{
}

} // verus!

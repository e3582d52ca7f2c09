//! The invocation surface: the parsed command line as plain data, validation
//! of the selected API and endpoint, and the `KEY=VALUE` input splitter.
//!
//! Reading the actual process arguments is the caller's concern; this module
//! only works on the values.

use vstd::prelude::*;

verus! {

use vstd::string::StrSliceExecFns;
use crate::config::APIConfig;
use crate::config::assoc_first;
use crate::config::assoc_get;
use crate::error::ExecutorError;

/// The parsed command line: an optional configuration file path and the
/// command to run.
#[derive(Debug)]
pub struct CmdArgs {
    pub config: Option<String>,
    pub command: Commands,
}

/// What the invocation asks for: list the configured APIs, or run one
/// endpoint of one API.
#[derive(Debug)]
pub enum Commands {
    List,
    Run {
        api: String,
        context: Option<String>,
        endpoint: String,
        input: Vec<(String, String)>,
        verbose: bool,
    },
}

/// Check, before any network activity, that the command names a configured
/// API and an endpoint that API contains. `List` needs nothing.
pub fn validate(cmd_args: &CmdArgs, apis: &Vec<(String, APIConfig)>) -> (r: Result<
    (),
    ExecutorError,
>)
    ensures
        match cmd_args.command {
            Commands::List => r is Ok,
            Commands::Run { api, endpoint, .. } => match assoc_first(apis@, api@) {
                Some(cfg) => match cfg.endpoint_of(endpoint@) {
                    Some(_) => r is Ok,
                    None => r matches Err(e) && e matches ExecutorError::EndpointNotFound(n) && n@
                        == endpoint@,
                },
                None => r matches Err(e) && e matches ExecutorError::APINotFound(n) && n@ == api@,
            },
        },
{
    match &cmd_args.command {
        Commands::List => Ok(()),
        Commands::Run { api, endpoint, .. } => match assoc_get(apis, api.as_str()) {
            None => Err(ExecutorError::APINotFound(api.clone())),
            Some(cfg) => {
                if !cfg.contains_endpoint(endpoint.as_str()) {
                    Err(ExecutorError::EndpointNotFound(endpoint.clone()))
                } else {
                    Ok(())
                }
            },
        },
    }
}

/// Position of the first occurrence of `c` in `s`, if any.
pub open spec fn find_char(s: Seq<char>, c: char) -> Option<int>
    decreases s.len(),
{
    if s.len() == 0 {
        None
    } else if s[0] == c {
        Some(0int)
    } else {
        match find_char(s.skip(1), c) {
            Some(i) => Some(i + 1),
            None => None,
        }
    }
}

proof fn lemma_find_char_spec(s: Seq<char>, c: char)
    ensures
        match find_char(s, c) {
            Some(i) => 0 <= i < s.len() && s[i] == c && (forall|k: int| 0 <= k < i ==> s[k] != c),
            None => forall|k: int| 0 <= k < s.len() ==> s[k] != c,
        },
    decreases s.len(),
{
    if s.len() == 0 {
    } else if s[0] == c {
    } else {
        lemma_find_char_spec(s.skip(1), c);
        assert forall|k: int| 1 <= k < s.len() implies s.skip(1)[k - 1] == s[k] by {}
    }
}

/// Split one `KEY=VALUE` argument on its first `=`: the key is everything
/// before it, the value everything after. An argument without `=` is
/// malformed and yields nothing.
pub fn parse_key_val(s: &str) -> (r: Option<(String, String)>)
    ensures
        match find_char(s@, '=') {
            Some(i) => r matches Some(kv) && kv.0@ == s@.take(i) && kv.1@ == s@.skip(i + 1),
            None => r is None,
        },
{
    proof {
        lemma_find_char_spec(s@, '=');
    }
    let n = s.unicode_len();
    let mut i: usize = 0;
    while i < n && s.get_char(i) != '='
        invariant
            n == s@.len(),
            i <= n,
            forall|k: int| 0 <= k < i ==> s@[k] != '=',
        decreases n - i,
    {
        i = i + 1;
    }
    if i >= n {
        proof {
            match find_char(s@, '=') {
                Some(j) => {
                    assert(s@[j] != '=');
                    assert(false);
                },
                None => {},
            }
        }
        return None;
    }
    let key = s.substring_char(0, i).to_owned();
    let value = s.substring_char(i + 1, n).to_owned();
    proof {
        match find_char(s@, '=') {
            Some(j) => {
                if j < i {
                    assert(s@[j] != '=');
                    assert(false);
                }
                if j > i {
                    assert(s@[i as int] != '=');
                    assert(false);
                }
                assert(key@ =~= s@.take(j));
                assert(value@ =~= s@.skip(j + 1));
            },
            None => {
                assert(false);
            },
        }
    }
    Some((key, value))
}

} // verus!

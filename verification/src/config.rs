//! The data model one invocation runs against: APIs, endpoints, bodies, auth
//! and the tool's own configuration.
//!
//! Everything here is plain data loaded once per invocation and immutable for
//! the run. Name lookups scan in order and take the first match.

use vstd::prelude::*;

verus! {

use vstd::string::StringExecFns;

/// HTTP method of an endpoint: a closed set, every endpoint declares one.
#[derive(Clone, Copy, Debug, PartialEq, Eq, Structural)]
pub enum APIMethod {
    GET,
    POST,
    DELETE,
    PATCH,
}

/// How a body's content is interpreted: as the literal payload, or as the
/// path of the file whose bytes become the payload.
#[derive(Clone, Copy, Debug, PartialEq, Eq, Structural)]
pub enum APIBodyType {
    FILE,
    STRING,
}

/// A request body: a kind and a templated content string.
#[derive(Clone, Debug)]
pub struct APIBody {
    pub api_body_type: APIBodyType,
    pub content: String,
}

impl APIBody {
    pub fn new(content: &str, api_type: APIBodyType) -> (r: APIBody)
        ensures
            r.api_body_type == api_type,
            r.content@ == content@,
    {
        APIBody { api_body_type: api_type, content: content.to_owned() }
    }
}

/// Authentication of an endpoint. Only `Basic` is applied; any other scheme
/// deliberately leaves the request unmodified.
#[derive(Clone, Debug)]
pub enum AuthEndpoint {
    /// HTTP Basic authentication; username and password are templates.
    Basic { username: String, password: String },
    /// A scheme the request builder does not implement: a no-op, not an
    /// error, so that configurations written for a later version still run.
    Other,
}

/// One templated HTTP request definition. Header keys are literal; the URL,
/// header values, body content and auth credentials are templates.
#[derive(Debug)]
pub struct APIEndpoint {
    pub method: APIMethod,
    pub url: String,
    pub headers: Option<Vec<(String, String)>>,
    pub body: Option<APIBody>,
    pub auth: Option<AuthEndpoint>,
}

/// A named context group: substitution key/value pairs selectable by name at
/// invocation time.
pub type APIContext = Vec<(String, String)>;

/// The first value `pairs` binds to `key`, scanning left to right.
pub open spec fn assoc_first<T>(pairs: Seq<(String, T)>, key: Seq<char>) -> Option<T>
    decreases pairs.len(),
{
    if pairs.len() == 0 {
        None
    } else if pairs[0].0@ == key {
        Some(pairs[0].1)
    } else {
        assoc_first(pairs.skip(1), key)
    }
}

/// Look `key` up in an association list, returning a reference to the first
/// matching value.
pub fn assoc_get<'a, T>(pairs: &'a Vec<(String, T)>, key: &str) -> (r: Option<&'a T>)
    ensures
        match r {
            Some(v) => assoc_first(pairs@, key@) == Some(*v),
            None => assoc_first(pairs@, key@) is None,
        },
{
    let owned = key.to_owned();
    let mut i: usize = 0;
    proof {
        assert(pairs@.skip(0) =~= pairs@);
    }
    while i < pairs.len()
        invariant
            i <= pairs@.len(),
            owned@ == key@,
            assoc_first(pairs@, key@) == assoc_first(pairs@.skip(i as int), key@),
        decreases pairs@.len() - i,
    {
        proof {
            assert(pairs@.skip(i as int)[0] == pairs@[i as int]);
        }
        if pairs[i].0 == owned {
            return Some(&pairs[i].1);
        }
        proof {
            assert(pairs@.skip(i as int).skip(1) =~= pairs@.skip(i as int + 1));
        }
        i = i + 1;
    }
    proof {
        assert(pairs@.skip(i as int) =~= Seq::<(String, T)>::empty());
    }
    None
}

/// A named collection of endpoints plus named context groups.
#[derive(Debug)]
pub struct APIConfig {
    context: Option<Vec<(String, APIContext)>>,
    endpoints: Vec<(String, APIEndpoint)>,
}

impl APIConfig {
    /// The named context groups, as stored; `None` when the API declares
    /// none.
    pub closed spec fn spec_contexts(&self) -> Option<Seq<(String, APIContext)>> {
        match self.context {
            Some(c) => Some(c@),
            None => None,
        }
    }

    /// The named endpoints, as stored.
    pub closed spec fn spec_endpoints(&self) -> Seq<(String, APIEndpoint)> {
        self.endpoints@
    }

    /// The endpoint `name` selects, if any.
    pub open spec fn endpoint_of(&self, name: Seq<char>) -> Option<APIEndpoint> {
        assoc_first(self.spec_endpoints(), name)
    }

    /// The context group `name` selects, if any.
    pub open spec fn context_of(&self, name: Seq<char>) -> Option<APIContext> {
        match self.spec_contexts() {
            Some(c) => assoc_first(c, name),
            None => None,
        }
    }

    pub fn new(
        context: Option<Vec<(String, APIContext)>>,
        endpoints: Vec<(String, APIEndpoint)>,
    ) -> (r: APIConfig)
        ensures
            r.spec_endpoints() == endpoints@,
            match context {
                Some(c) => r.spec_contexts() == Some(c@),
                None => r.spec_contexts() is None,
            },
    {
        APIConfig { context, endpoints }
    }

    pub fn contains_endpoint(&self, endpoint: &str) -> (r: bool)
        ensures
            r == (self.endpoint_of(endpoint@) is Some),
    {
        match assoc_get(&self.endpoints, endpoint) {
            Some(_) => true,
            None => false,
        }
    }

    pub fn get_api_endpoint(&self, endpoint: &str) -> (r: Option<&APIEndpoint>)
        ensures
            match r {
                Some(e) => self.endpoint_of(endpoint@) == Some(*e),
                None => self.endpoint_of(endpoint@) is None,
            },
    {
        assoc_get(&self.endpoints, endpoint)
    }

    pub fn contains_context(&self, context: &str) -> (r: bool)
        ensures
            r == (self.context_of(context@) is Some),
    {
        match &self.context {
            Some(c) => match assoc_get(c, context) {
                Some(_) => true,
                None => false,
            },
            None => false,
        }
    }

    pub fn get_api_context(&self, context: &str) -> (r: Option<&APIContext>)
        ensures
            match r {
                Some(g) => self.context_of(context@) == Some(*g),
                None => self.context_of(context@) is None,
            },
    {
        match &self.context {
            Some(c) => assoc_get(c, context),
            None => None,
        }
    }
}

/// The tool's own configuration: the directory it was loaded from, the API
/// collection directories to scan, and an optional global context. Reading
/// and writing it on disk is the caller's concern; this type only carries the
/// values.
#[derive(Debug)]
pub struct Config {
    config_directory: String,
    api_collection_directory: Vec<String>,
    global_context: Option<Vec<(String, String)>>,
}

impl Config {
    pub closed spec fn spec_config_directory(&self) -> Seq<char> {
        self.config_directory@
    }

    pub closed spec fn spec_api_collection_directories(&self) -> Seq<String> {
        self.api_collection_directory@
    }

    pub closed spec fn spec_global_context(&self) -> Option<Seq<(String, String)>> {
        match self.global_context {
            Some(g) => Some(g@),
            None => None,
        }
    }

    pub fn new(
        config_directory: String,
        api_collection_directory: Vec<String>,
        global_context: Option<Vec<(String, String)>>,
    ) -> (r: Config)
        ensures
            r.spec_config_directory() == config_directory@,
            r.spec_api_collection_directories() == api_collection_directory@,
            match global_context {
                Some(g) => r.spec_global_context() == Some(g@),
                None => r.spec_global_context() is None,
            },
    {
        Config { config_directory, api_collection_directory, global_context }
    }

    /// Record the directory the configuration file was read from, so that
    /// relative API collection directories can be resolved against it.
    pub fn set_config_path(&mut self, path: String)
        ensures
            final(self).spec_config_directory() == path@,
            final(self).spec_api_collection_directories() == old(
                self,
            ).spec_api_collection_directories(),
            final(self).spec_global_context() == old(self).spec_global_context(),
    {
        self.config_directory = path;
    }

    pub fn config_directory(&self) -> (r: &String)
        ensures
            r@ == self.spec_config_directory(),
    {
        &self.config_directory
    }

    pub fn api_collection_directories(&self) -> (r: &Vec<String>)
        ensures
            r@ == self.spec_api_collection_directories(),
    {
        &self.api_collection_directory
    }
}

/// The configuration used when none exists yet: one relative API collection
/// directory named `apis` under the given configuration directory, and no
/// global context.
pub fn create_default_config(config_directory: String) -> (r: Config)
    ensures
        r.spec_config_directory() == config_directory@,
        r.spec_api_collection_directories().len() == 1,
        r.spec_api_collection_directories()[0]@ == "apis"@,
        r.spec_global_context() is None,
{
    let mut collection_dirs: Vec<String> = Vec::new();
    collection_dirs.push(String::from_str("apis"));
    Config {
        config_directory,
        api_collection_directory: collection_dirs,
        global_context: None,
    }
}

} // verus!

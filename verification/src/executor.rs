//! The engine of one invocation: layer the substitution environment, resolve
//! the selected endpoint into a concrete request plan, and normalize the
//! transport's answer.
//!
//! The engine owns the resolver for the lifetime of one run. It does not
//! touch the network or the filesystem: it hands the caller a [`RequestPlan`]
//! to send and takes the raw response pieces back through [`map_response`];
//! a FILE-typed body's bytes come back through [`load_file_body`].

use vstd::prelude::*;

verus! {

use vstd::string::StringExecFns;
use vstd::utf8::decode_utf8;
use vstd::utf8::valid_utf8;
use crate::config::APIBody;
use crate::config::APIBodyType;
use crate::config::APIConfig;
use crate::config::APIEndpoint;
use crate::config::APIMethod;
use crate::config::AuthEndpoint;
use crate::error::ExecutorError;
use crate::resolver::Resolver;
use crate::resolver::TemplateResolver;
use crate::resolver::resolve_tpl;
use crate::resolver;

/// One response header, both sides decoded to text.
#[derive(Debug)]
pub struct Header {
    pub key: String,
    pub value: String,
}

/// The normalized response handed to the caller: status and protocol version
/// verbatim, headers in arrival order, the body as raw bytes.
#[derive(Debug)]
pub struct HttpResponse {
    pub status: u16,
    pub version: String,
    pub headers: Vec<Header>,
    pub body: Vec<u8>,
}

/// Resolved HTTP Basic credentials, ready to become an Authorization header.
#[derive(Debug)]
pub struct BasicAuth {
    pub username: String,
    pub password: String,
}

/// The payload of a resolved body: the literal text, or the path of the file
/// whose bytes are to be streamed.
#[derive(Debug)]
pub enum ResolvedBody {
    Text(String),
    FilePath(String),
}

/// A fully concrete request: every templated field resolved, nothing left to
/// decide before sending.
#[derive(Debug)]
pub struct RequestPlan {
    pub method: APIMethod,
    pub url: String,
    pub headers: Vec<(String, String)>,
    pub body: Option<ResolvedBody>,
    pub auth: Option<BasicAuth>,
}

/// The environment after writing `pairs` in order, later writes overwriting
/// earlier ones.
pub open spec fn insert_all(
    env: Map<Seq<char>, Seq<char>>,
    pairs: Seq<(String, String)>,
) -> Map<Seq<char>, Seq<char>>
    decreases pairs.len(),
{
    if pairs.len() == 0 {
        env
    } else {
        insert_all(env, pairs.drop_last()).insert(pairs.last().0@, pairs.last().1@)
    }
}

/// The environment one run resolves against, built in this exact order:
/// first the reserved `context` marker when a context name was supplied, then
/// the ad-hoc inputs, then — last, so its values win on a shared key — the
/// named context group, if the API has one of that name.
pub open spec fn merged_env(
    base: Map<Seq<char>, Seq<char>>,
    config: APIConfig,
    maybe_context: Option<String>,
    inputs: Seq<(String, String)>,
) -> Map<Seq<char>, Seq<char>> {
    let with_marker = match maybe_context {
        Some(c) => base.insert("context"@, c@),
        None => base,
    };
    let with_inputs = insert_all(with_marker, inputs);
    match maybe_context {
        Some(c) => match config.context_of(c@) {
            Some(group) => insert_all(with_inputs, group@),
            None => with_inputs,
        },
        None => with_inputs,
    }
}

proof fn lemma_insert_all_wins(
    env: Map<Seq<char>, Seq<char>>,
    pairs: Seq<(String, String)>,
    i: int,
)
    requires
        0 <= i < pairs.len(),
        forall|j: int| i < j < pairs.len() ==> (#[trigger] pairs[j]).0@ != pairs[i].0@,
    ensures
        insert_all(env, pairs).contains_key(pairs[i].0@),
        insert_all(env, pairs)[pairs[i].0@] == pairs[i].1@,
    decreases pairs.len(),
{
    if i == pairs.len() - 1 {
    } else {
        assert forall|j: int|
            i < j < pairs.drop_last().len() implies (#[trigger] pairs.drop_last()[j]).0@
            != pairs.drop_last()[i].0@ by {
            assert(pairs.drop_last()[j] == pairs[j]);
            assert(pairs.drop_last()[i] == pairs[i]);
        }
        assert(pairs.drop_last()[i] == pairs[i]);
        lemma_insert_all_wins(env, pairs.drop_last(), i);
        assert(pairs.last().0@ != pairs[i].0@);
    }
}

/// Merge precedence: the named context group is written last, so on a key it
/// shares with an ad-hoc input — or with anything written earlier — the
/// group's value is what resolution sees. This is the documented design
/// choice, not an accident: `i` points at the group's binding of the key
/// (its last one, where the group repeats a key).
pub proof fn lemma_context_group_overrides_input(
    base: Map<Seq<char>, Seq<char>>,
    config: APIConfig,
    context_name: String,
    inputs: Seq<(String, String)>,
    group: crate::config::APIContext,
    i: int,
)
    requires
        config.context_of(context_name@) == Some(group),
        0 <= i < group@.len(),
        forall|j: int| i < j < group@.len() ==> (#[trigger] group@[j]).0@ != group@[i].0@,
    ensures
        merged_env(base, config, Some(context_name), inputs).contains_key(group@[i].0@),
        merged_env(base, config, Some(context_name), inputs)[group@[i].0@] == group@[i].1@,
{
    let with_inputs = insert_all(base.insert("context"@, context_name@), inputs);
    lemma_insert_all_wins(with_inputs, group@, i);
}

/// The templates of the header values, in header order.
pub open spec fn header_templates(headers: Option<Vec<(String, String)>>) -> Seq<Seq<char>> {
    match headers {
        Some(hs) => Seq::new(hs@.len(), |k: int| hs@[k].1@),
        None => Seq::empty(),
    }
}

/// The templates an auth declaration carries: Basic credentials, nothing for
/// the schemes the builder leaves alone.
pub open spec fn auth_templates(auth: Option<AuthEndpoint>) -> Seq<Seq<char>> {
    match auth {
        Some(a) => match a {
            AuthEndpoint::Basic { username, password } => seq![username@, password@],
            AuthEndpoint::Other => Seq::empty(),
        },
        None => Seq::empty(),
    }
}

/// The template of the body content, if the endpoint has a body.
pub open spec fn body_templates(body: Option<APIBody>) -> Seq<Seq<char>> {
    match body {
        Some(b) => seq![b.content@],
        None => Seq::empty(),
    }
}

/// Every template the endpoint carries, in the order the builder resolves
/// them: URL, header values, auth credentials, body content.
pub open spec fn endpoint_templates(ep: APIEndpoint) -> Seq<Seq<char>> {
    seq![ep.url@] + header_templates(ep.headers) + auth_templates(ep.auth) + body_templates(
        ep.body,
    )
}

/// All the endpoint's templates resolve under `env`.
pub open spec fn templates_resolve(ts: Seq<Seq<char>>, env: Map<Seq<char>, Seq<char>>) -> bool {
    forall|k: int| 0 <= k < ts.len() ==> resolve_tpl(#[trigger] ts[k], env) is Some
}

/// The first template of `ts` that does not resolve under `env`, if any: the
/// one a failed preparation reports.
pub open spec fn first_failing(ts: Seq<Seq<char>>, env: Map<Seq<char>, Seq<char>>) -> Option<
    Seq<char>,
>
    decreases ts.len(),
{
    if ts.len() == 0 {
        None
    } else if resolve_tpl(ts[0], env) is None {
        Some(ts[0])
    } else {
        first_failing(ts.skip(1), env)
    }
}

proof fn lemma_first_failing_at(ts: Seq<Seq<char>>, env: Map<Seq<char>, Seq<char>>, i: int)
    requires
        0 <= i < ts.len(),
        forall|q: int| 0 <= q < i ==> resolve_tpl(#[trigger] ts[q], env) is Some,
        resolve_tpl(ts[i], env) is None,
    ensures
        first_failing(ts, env) == Some(ts[i]),
    decreases ts.len(),
{
    if i == 0 {
    } else {
        assert forall|q: int| 0 <= q < i - 1 implies resolve_tpl(
            #[trigger] ts.skip(1)[q],
            env,
        ) is Some by {
            assert(ts.skip(1)[q] == ts[q + 1]);
        }
        assert(ts.skip(1)[i - 1] == ts[i]);
        lemma_first_failing_at(ts.skip(1), env, i - 1);
    }
}

proof fn lemma_endpoint_templates_parts(ep: APIEndpoint)
    ensures
        ({
            let ts = endpoint_templates(ep);
            let ht = header_templates(ep.headers);
            let at = auth_templates(ep.auth);
            let bt = body_templates(ep.body);
            &&& ts.len() == 1 + ht.len() + at.len() + bt.len()
            &&& ts[0] == ep.url@
            &&& (forall|q: int| 0 <= q < ht.len() ==> #[trigger] ts[1 + q] == ht[q])
            &&& (forall|q: int| 0 <= q < at.len() ==> #[trigger] ts[1 + ht.len() + q] == at[q])
            &&& (forall|q: int|
                0 <= q < bt.len() ==> #[trigger] ts[1 + ht.len() + at.len() + q] == bt[q])
        }),
{
}

proof fn lemma_prefix_resolves_through_headers(
    ep: APIEndpoint,
    env: Map<Seq<char>, Seq<char>>,
    resolved: Seq<(String, String)>,
)
    requires
        resolve_tpl(ep.url@, env) is Some,
        match ep.headers {
            Some(hs) => resolved.len() == hs@.len() && (forall|q: int|
                0 <= q < hs@.len() ==> Some((#[trigger] resolved[q]).1@) == resolve_tpl(
                    hs@[q].1@,
                    env,
                )),
            None => resolved.len() == 0,
        },
    ensures
        forall|q: int|
            0 <= q < 1 + header_templates(ep.headers).len() ==> resolve_tpl(
                #[trigger] endpoint_templates(ep)[q],
                env,
            ) is Some,
{
    lemma_endpoint_templates_parts(ep);
    let ts = endpoint_templates(ep);
    assert forall|q: int|
        0 <= q < 1 + header_templates(ep.headers).len() implies resolve_tpl(
        #[trigger] ts[q],
        env,
    ) is Some by {
        if q == 0 {
            assert(ts[0] == ep.url@);
        } else {
            assert(ts[q] == header_templates(ep.headers)[q - 1]);
            match ep.headers {
                Some(hs) => {
                    assert(header_templates(ep.headers)[q - 1] == hs@[q - 1].1@);
                    assert(Some((#[trigger] resolved[q - 1]).1@) == resolve_tpl(
                        hs@[q - 1].1@,
                        env,
                    ));
                },
                None => {
                    assert(false);
                },
            }
        }
    }
}

/// The plan is the endpoint with every templated field resolved under `env`:
/// same method, URL and header values substituted (header keys copied
/// untouched, in order), Basic credentials substituted and any other auth
/// dropped, and the body content substituted into a payload of the declared
/// kind.
pub open spec fn plan_matches(
    plan: RequestPlan,
    ep: APIEndpoint,
    env: Map<Seq<char>, Seq<char>>,
) -> bool {
    &&& plan.method == ep.method
    &&& Some(plan.url@) == resolve_tpl(ep.url@, env)
    &&& match ep.headers {
        Some(hs) => plan.headers@.len() == hs@.len() && (forall|k: int|
            0 <= k < hs@.len() ==> (#[trigger] plan.headers@[k]).0@ == hs@[k].0@ && Some(
                plan.headers@[k].1@,
            ) == resolve_tpl(hs@[k].1@, env)),
        None => plan.headers@.len() == 0,
    }
    &&& match ep.auth {
        Some(a) => match a {
            AuthEndpoint::Basic { username, password } => plan.auth matches Some(c) && Some(
                c.username@,
            ) == resolve_tpl(username@, env) && Some(c.password@) == resolve_tpl(password@, env),
            AuthEndpoint::Other => plan.auth is None,
        },
        None => plan.auth is None,
    }
    &&& match ep.body {
        Some(b) => match b.api_body_type {
            APIBodyType::STRING => plan.body matches Some(ResolvedBody::Text(s)) && Some(s@)
                == resolve_tpl(b.content@, env),
            APIBodyType::FILE => plan.body matches Some(ResolvedBody::FilePath(p)) && Some(p@)
                == resolve_tpl(b.content@, env),
        },
        None => plan.body is None,
    }
}

/// Write every pair into the resolver, in order.
fn add_all(target: &mut TemplateResolver, pairs: &Vec<(String, String)>)
    ensures
        final(target).env() == insert_all(old(target).env(), pairs@),
{
    let ghost env0 = target.env();
    let mut i: usize = 0;
    proof {
        assert(pairs@.take(0) =~= Seq::<(String, String)>::empty());
    }
    while i < pairs.len()
        invariant
            i <= pairs@.len(),
            target.env() == insert_all(env0, pairs@.take(i as int)),
        decreases pairs@.len() - i,
    {
        target.add_context(pairs[i].0.clone(), pairs[i].1.as_str());
        proof {
            assert(pairs@.take(i as int + 1).drop_last() =~= pairs@.take(i as int));
            assert(pairs@.take(i as int + 1).last() == pairs@[i as int]);
        }
        i = i + 1;
    }
    proof {
        assert(pairs@.take(pairs@.len() as int) =~= pairs@);
    }
}

/// The engine of one run: owns the resolver whose environment the run fills.
pub struct Engine {
    resolver: TemplateResolver,
}

impl Engine {
    /// The resolver's current environment.
    pub closed spec fn env(&self) -> Map<Seq<char>, Seq<char>> {
        self.resolver.env()
    }

    /// A fresh engine with an empty environment.
    pub fn new() -> (r: Engine)
        ensures
            r.env() == Map::<Seq<char>, Seq<char>>::empty(),
    {
        Engine { resolver: resolver::new() }
    }

    /// One run up to the point of sending: merge the context layers into the
    /// environment, look the endpoint up, and resolve every templated field
    /// into a concrete [`RequestPlan`].
    ///
    /// Fails with `EndpointNotFound` exactly when the API lacks the endpoint,
    /// and with a `TemplateError` carrying one of the endpoint's templates
    /// exactly when that template does not resolve under the merged
    /// environment.
    pub fn prepare(
        &mut self,
        api_config: &APIConfig,
        endpoint: &str,
        maybe_context: &Option<String>,
        inputs: &Vec<(String, String)>,
    ) -> (r: Result<RequestPlan, ExecutorError>)
        ensures
            final(self).env() == merged_env(
                old(self).env(),
                *api_config,
                *maybe_context,
                inputs@,
            ),
            ({
                let env = merged_env(old(self).env(), *api_config, *maybe_context, inputs@);
                match api_config.endpoint_of(endpoint@) {
                    Some(ep) => {
                        &&& (r is Ok <==> templates_resolve(endpoint_templates(ep), env))
                        &&& (r matches Ok(plan) ==> plan_matches(plan, ep, env))
                        &&& (r matches Err(e) ==> e matches ExecutorError::TemplateError(t)
                            && first_failing(endpoint_templates(ep), env) == Some(t@))
                    },
                    None => r matches Err(e) && e matches ExecutorError::EndpointNotFound(n) && n@
                        == endpoint@,
                }
            }),
    {
        if let Some(c) = maybe_context {
            self.resolver.add_context(String::from_str("context"), c.as_str());
        }
        add_all(&mut self.resolver, inputs);
        if let Some(c) = maybe_context {
            match api_config.get_api_context(c.as_str()) {
                Some(group) => {
                    add_all(&mut self.resolver, group);
                },
                None => {},
            }
        }
        let ghost env = merged_env(old(self).env(), *api_config, *maybe_context, inputs@);
        let ep = match api_config.get_api_endpoint(endpoint) {
            Some(ep) => ep,
            None => {
                return Err(ExecutorError::EndpointNotFound(endpoint.to_owned()));
            },
        };
        let ghost ts = endpoint_templates(*ep);
        proof {
            lemma_endpoint_templates_parts(*ep);
        }
        let url = match self.resolver.resolve(ep.url.as_str()) {
            Ok(u) => u,
            Err(e) => {
                proof {
                    assert(ts[0] == ep.url@);
                    lemma_first_failing_at(ts, env, 0);
                }
                return Err(e);
            },
        };
        let mut headers: Vec<(String, String)> = Vec::new();
        let ghost hlen = header_templates(ep.headers).len() as int;
        match &ep.headers {
            Some(hs) => {
                let mut k: usize = 0;
                while k < hs.len()
                    invariant
                        k <= hs@.len(),
                        self.env() == env,
                        env == merged_env(old(self).env(), *api_config, *maybe_context, inputs@),
                        api_config.endpoint_of(endpoint@) == Some(*ep),
                        ts == endpoint_templates(*ep),
                        ep.headers matches Some(h) && h@ == hs@,
                        resolve_tpl(ep.url@, env) is Some,
                        headers@.len() == k,
                        forall|q: int|
                            0 <= q < k ==> (#[trigger] headers@[q]).0@ == hs@[q].0@ && Some(
                                headers@[q].1@,
                            ) == resolve_tpl(hs@[q].1@, env),
                    decreases hs@.len() - k,
                {
                    let value = match self.resolver.resolve(hs[k].1.as_str()) {
                        Ok(v) => v,
                        Err(e) => {
                            proof {
                                lemma_endpoint_templates_parts(*ep);
                                assert(header_templates(ep.headers)[k as int] == hs@[
                                    k as int].1@);
                                assert(ts[1 + k as int] == hs@[k as int].1@);
                                assert forall|q: int| 0 <= q < 1 + k implies resolve_tpl(
                                    #[trigger] ts[q],
                                    env,
                                ) is Some by {
                                    if q == 0 {
                                        assert(ts[0] == ep.url@);
                                    } else {
                                        assert(ts[q] == header_templates(ep.headers)[q - 1]);
                                        assert(header_templates(ep.headers)[q - 1] == hs@[q
                                            - 1].1@);
                                        assert(Some((#[trigger] headers@[q - 1]).1@)
                                            == resolve_tpl(hs@[q - 1].1@, env));
                                    }
                                }
                                lemma_first_failing_at(ts, env, 1 + k as int);
                            }
                            return Err(e);
                        },
                    };
                    headers.push((hs[k].0.clone(), value));
                    k = k + 1;
                }
            },
            None => {},
        }
        proof {
            assert(match ep.headers {
                Some(hs) => headers@.len() == hs@.len() && (forall|q: int|
                    0 <= q < hs@.len() ==> (#[trigger] headers@[q]).0@ == hs@[q].0@ && Some(
                        headers@[q].1@,
                    ) == resolve_tpl(hs@[q].1@, env)),
                None => headers@.len() == 0,
            });
        }
        let auth = match &ep.auth {
            Some(a) => match a {
                AuthEndpoint::Basic { username, password } => {
                    let u = match self.resolver.resolve(username.as_str()) {
                        Ok(u) => u,
                        Err(e) => {
                            proof {
                                lemma_prefix_resolves_through_headers(*ep, env, headers@);
                                assert(auth_templates(ep.auth)[0] == username@);
                                assert(ts[1 + hlen] == username@);
                                lemma_first_failing_at(ts, env, 1 + hlen);
                            }
                            return Err(e);
                        },
                    };
                    let p = match self.resolver.resolve(password.as_str()) {
                        Ok(p) => p,
                        Err(e) => {
                            proof {
                                lemma_prefix_resolves_through_headers(*ep, env, headers@);
                                assert(auth_templates(ep.auth)[0] == username@);
                                assert(auth_templates(ep.auth)[1] == password@);
                                assert(ts[1 + hlen] == username@);
                                assert(ts[1 + hlen + 1] == password@);
                                assert forall|q: int| 0 <= q < 1 + hlen + 1 implies resolve_tpl(
                                    #[trigger] ts[q],
                                    env,
                                ) is Some by {
                                    if q == 1 + hlen {
                                        assert(Some(u@) == resolve_tpl(username@, env));
                                    }
                                }
                                lemma_first_failing_at(ts, env, 1 + hlen + 1);
                            }
                            return Err(e);
                        },
                    };
                    Some(BasicAuth { username: u, password: p })
                },
                AuthEndpoint::Other => None,
            },
            None => None,
        };
        let ghost alen = auth_templates(ep.auth).len() as int;
        proof {
            assert(match ep.auth {
                Some(a) => match a {
                    AuthEndpoint::Basic { username, password } => auth matches Some(c) && Some(
                        c.username@,
                    ) == resolve_tpl(username@, env) && Some(c.password@) == resolve_tpl(
                        password@,
                        env,
                    ),
                    AuthEndpoint::Other => auth is None,
                },
                None => auth is None,
            });
        }
        let body = match &ep.body {
            Some(b) => {
                let content = match self.resolver.resolve(b.content.as_str()) {
                    Ok(c) => c,
                    Err(e) => {
                        proof {
                            lemma_prefix_resolves_through_headers(*ep, env, headers@);
                            assert(body_templates(ep.body)[0] == b.content@);
                            assert(ts[1 + hlen + alen] == b.content@);
                            assert forall|q: int| 0 <= q < 1 + hlen + alen implies resolve_tpl(
                                #[trigger] ts[q],
                                env,
                            ) is Some by {
                                if q >= 1 + hlen {
                                    match ep.auth {
                                        Some(a) => match a {
                                            AuthEndpoint::Basic { username, password } => {
                                                assert(auth_templates(ep.auth)[0] == username@);
                                                assert(auth_templates(ep.auth)[1] == password@);
                                                assert(ts[1 + hlen] == username@);
                                                assert(ts[1 + hlen + 1] == password@);
                                            },
                                            AuthEndpoint::Other => {
                                                assert(false);
                                            },
                                        },
                                        None => {
                                            assert(false);
                                        },
                                    }
                                }
                            }
                            lemma_first_failing_at(ts, env, 1 + hlen + alen);
                        }
                        return Err(e);
                    },
                };
                match b.api_body_type {
                    APIBodyType::STRING => Some(ResolvedBody::Text(content)),
                    APIBodyType::FILE => Some(ResolvedBody::FilePath(content)),
                }
            },
            None => None,
        };
        let plan = RequestPlan { method: ep.method, url, headers, body, auth };
        proof {
            let ht = header_templates(ep.headers);
            let at = auth_templates(ep.auth);
            let bt = body_templates(ep.body);
            assert(plan_matches(plan, *ep, env));
            assert forall|k: int| 0 <= k < ts.len() implies resolve_tpl(
                #[trigger] ts[k],
                env,
            ) is Some by {
                lemma_endpoint_templates_parts(*ep);
                if k == 0 {
                    assert(Some(plan.url@) == resolve_tpl(ep.url@, env));
                } else if k < 1 + ht.len() {
                    let q = k - 1;
                    assert(ts[1 + q] == ht[q]);
                    match ep.headers {
                        Some(hs) => {
                            assert(ht[q] == hs@[q].1@);
                            assert((#[trigger] headers@[q]).0@ == hs@[q].0@);
                            assert(Some(headers@[q].1@) == resolve_tpl(hs@[q].1@, env));
                        },
                        None => {
                            assert(false);
                        },
                    }
                } else if k < 1 + ht.len() + at.len() {
                    let q = k - 1 - ht.len() as int;
                    assert(ts[1 + ht.len() + q] == at[q]);
                    match ep.auth {
                        Some(a) => match a {
                            AuthEndpoint::Basic { username, password } => {
                                assert(at[0] == username@);
                                assert(at[1] == password@);
                            },
                            AuthEndpoint::Other => {
                                assert(false);
                            },
                        },
                        None => {
                            assert(false);
                        },
                    }
                } else {
                    let q = k - 1 - ht.len() as int - at.len() as int;
                    assert(ts[1 + ht.len() + at.len() + q] == bt[q]);
                    match ep.body {
                        Some(b) => {
                            assert(bt[0] == b.content@);
                        },
                        None => {
                            assert(false);
                        },
                    }
                }
            }
        }
        Ok(plan)
    }
}

/// Relies on core::str::from_utf8 and str::to_string: decoding header value
/// bytes succeeds exactly when they are valid UTF-8, and yields their decoded
/// text; the error case carries the decoder's diagnostic.
#[verifier::external_body]
fn header_value_to_text(bytes: &Vec<u8>) -> (r: Result<String, String>)
    ensures
        r is Ok <==> valid_utf8(bytes@),
        (r matches Ok(s) ==> s@ == decode_utf8(bytes@)),
{
    match core::str::from_utf8(bytes.as_slice()) {
        Ok(s) => Ok(s.to_string()),
        Err(e) => Err(e.to_string()),
    }
}

/// Normalize a transport response: status and version verbatim, every header
/// value decoded to text in arrival order, the body bytes as read.
///
/// The first header whose value bytes are not valid text fails the whole
/// mapping with `FailedToParseHeader` naming that header; a failed body read
/// fails it with `FailedToReadBody`; no partial response is ever returned.
pub fn map_response(
    status: u16,
    version: String,
    raw_headers: &Vec<(String, Vec<u8>)>,
    body: Result<Vec<u8>, String>,
) -> (r: Result<HttpResponse, ExecutorError>)
    ensures
        r is Ok <==> (body is Ok && forall|k: int|
            0 <= k < raw_headers@.len() ==> valid_utf8((#[trigger] raw_headers@[k]).1@)),
        (r matches Ok(resp) ==> {
            &&& resp.status == status
            &&& resp.version@ == version@
            &&& (body matches Ok(b) && resp.body@ == b@)
            &&& resp.headers@.len() == raw_headers@.len()
            &&& (forall|k: int|
                0 <= k < raw_headers@.len() ==> (#[trigger] resp.headers@[k]).key@
                    == raw_headers@[k].0@ && resp.headers@[k].value@ == decode_utf8(
                    raw_headers@[k].1@,
                ))
        }),
        (r matches Err(e) ==> match e {
            ExecutorError::FailedToParseHeader(name, _) => exists|k: int|
                0 <= k < raw_headers@.len() && !valid_utf8((#[trigger] raw_headers@[k]).1@)
                    && name@ == raw_headers@[k].0@ && (forall|q: int|
                    0 <= q < k ==> valid_utf8((#[trigger] raw_headers@[q]).1@)),
            ExecutorError::FailedToReadBody(diag) => (forall|k: int|
                0 <= k < raw_headers@.len() ==> valid_utf8((#[trigger] raw_headers@[k]).1@)) && (
            body matches Err(d) && diag@ == d@),
            _ => false,
        }),
{
    let mut headers: Vec<Header> = Vec::new();
    let mut i: usize = 0;
    while i < raw_headers.len()
        invariant
            i <= raw_headers@.len(),
            headers@.len() == i,
            forall|q: int| 0 <= q < i ==> valid_utf8((#[trigger] raw_headers@[q]).1@),
            forall|q: int|
                0 <= q < i ==> (#[trigger] headers@[q]).key@ == raw_headers@[q].0@
                    && headers@[q].value@ == decode_utf8(raw_headers@[q].1@),
        decreases raw_headers@.len() - i,
    {
        match header_value_to_text(&raw_headers[i].1) {
            Ok(text) => {
                headers.push(Header { key: raw_headers[i].0.clone(), value: text });
            },
            Err(diag) => {
                return Err(ExecutorError::FailedToParseHeader(raw_headers[i].0.clone(), diag));
            },
        }
        i = i + 1;
    }
    let body_bytes = match body {
        Ok(b) => b,
        Err(diag) => {
            return Err(ExecutorError::FailedToReadBody(diag));
        },
    };
    Ok(HttpResponse { status, version, headers, body: body_bytes })
}

/// Turn the outcome of reading a FILE-typed body's file into the request
/// payload: the file's bytes verbatim on success, a `FileBodyError` carrying
/// the path and the reader's diagnostic on failure.
pub fn load_file_body(path: &String, read_result: Result<Vec<u8>, String>) -> (r: Result<
    Vec<u8>,
    ExecutorError,
>)
    ensures
        r is Ok <==> read_result is Ok,
        (r matches Ok(b) ==> read_result matches Ok(b0) && b == b0),
        (r matches Err(e) ==> read_result matches Err(d) && e matches ExecutorError::FileBodyError(
            p,
            d2,
        ) && p@ == path@ && d2 == d),
{
    match read_result {
        Ok(b) => Ok(b),
        Err(d) => Err(ExecutorError::FileBodyError(path.clone(), d)),
    }
}

} // verus!

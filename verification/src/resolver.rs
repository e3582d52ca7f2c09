//! Template resolution against a key/value environment.
//!
//! A template is plain text with placeholders of the form `{{ key }}` (spaces
//! around the key optional). Resolution substitutes each placeholder with the
//! value bound to its key in the environment and copies everything else
//! through unchanged. A placeholder whose key is unbound, or an opening `{{`
//! with no closing `}}` after it, fails the whole resolution: no silent
//! empty-string substitution ever happens.
//!
//! [`resolve_tpl`] is the mathematical definition of that semantics;
//! [`TemplateResolver`] is the executable environment whose `resolve` is
//! proved to implement it.

use vstd::prelude::*;

verus! {

use vstd::string::StrSliceExecFns;
use vstd::string::StringExecFns;
use crate::error::ExecutorError;

/// A closing `}}` pair sits at position `k` of `s`.
pub open spec fn close_at(s: Seq<char>, k: int) -> bool {
    0 <= k && k + 1 < s.len() && s[k] == '}' && s[k + 1] == '}'
}

/// An opening `{{` pair sits at position `k` of `s`.
pub open spec fn open_at(s: Seq<char>, k: int) -> bool {
    0 <= k && k + 1 < s.len() && s[k] == '{' && s[k + 1] == '{'
}

/// The template contains at least one opening `{{` pair.
pub open spec fn has_open(s: Seq<char>) -> bool {
    exists|k: int| open_at(s, k)
}

/// Position of the first closing `}}` pair of `s`, if any.
pub open spec fn find_close(s: Seq<char>) -> Option<int>
    decreases s.len(),
{
    if s.len() < 2 {
        None
    } else if s[0] == '}' && s[1] == '}' {
        Some(0int)
    } else {
        match find_close(s.skip(1)) {
            Some(j) => Some(j + 1),
            None => None,
        }
    }
}

/// `find_close` returns the first closing pair: a position that closes, with
/// no closing pair before it; `None` exactly when no position closes.
pub proof fn lemma_find_close_spec(s: Seq<char>)
    ensures
        match find_close(s) {
            Some(j) => close_at(s, j) && (forall|k: int| 0 <= k < j ==> !close_at(s, k)),
            None => forall|k: int| !close_at(s, k),
        },
    decreases s.len(),
{
    if s.len() < 2 {
    } else if s[0] == '}' && s[1] == '}' {
    } else {
        lemma_find_close_spec(s.skip(1));
        assert forall|k: int| 1 <= k && close_at(s, k) implies close_at(s.skip(1), k - 1) by {
            assert(s.skip(1)[k - 1] == s[k]);
            assert(s.skip(1)[k] == s[k + 1]);
        }
        assert forall|k: int| close_at(s.skip(1), k) implies close_at(s, k + 1) by {
            assert(s.skip(1)[k] == s[k + 1]);
            assert(s.skip(1)[k + 1] == s[k + 2]);
        }
        match find_close(s.skip(1)) {
            Some(j) => {
                assert(close_at(s, j + 1));
                assert forall|k: int| 0 <= k < j + 1 implies !close_at(s, k) by {
                    if k == 0 {
                    } else {
                        assert(!close_at(s.skip(1), k - 1));
                    }
                }
            },
            None => {
                assert forall|k: int| !close_at(s, k) by {
                    if 1 <= k {
                        assert(!close_at(s.skip(1), k - 1));
                    }
                }
            },
        }
    }
}

/// `s` without its leading spaces.
pub open spec fn trim_start(s: Seq<char>) -> Seq<char>
    decreases s.len(),
{
    if s.len() > 0 && s[0] == ' ' {
        trim_start(s.skip(1))
    } else {
        s
    }
}

/// `s` without its trailing spaces.
pub open spec fn trim_end(s: Seq<char>) -> Seq<char>
    decreases s.len(),
{
    if s.len() > 0 && s[s.len() - 1] == ' ' {
        trim_end(s.take(s.len() - 1))
    } else {
        s
    }
}

/// `s` without its leading and trailing spaces: how a placeholder's raw text
/// becomes its key.
pub open spec fn trim_spaces(s: Seq<char>) -> Seq<char> {
    trim_end(trim_start(s))
}

/// If the first `a` characters of `s` are spaces and the next one is not,
/// trimming the start drops exactly those `a` characters.
pub proof fn lemma_trim_start_is_skip(s: Seq<char>, a: int)
    requires
        0 <= a <= s.len(),
        forall|k: int| 0 <= k < a ==> s[k] == ' ',
        a == s.len() || s[a] != ' ',
    ensures
        trim_start(s) == s.skip(a),
    decreases a,
{
    if a == 0 {
        assert(s.skip(0) =~= s);
    } else {
        assert(s[0] == ' ');
        assert forall|k: int| 0 <= k < a - 1 implies s.skip(1)[k] == ' ' by {
            assert(s.skip(1)[k] == s[k + 1]);
        }
        assert(a - 1 == s.skip(1).len() || s.skip(1)[a - 1] != ' ');
        lemma_trim_start_is_skip(s.skip(1), a - 1);
        assert(s.skip(1).skip(a - 1) =~= s.skip(a));
    }
}

/// If the characters of `s` from `b` on are spaces and the one before `b` is
/// not, trimming the end keeps exactly the first `b` characters.
pub proof fn lemma_trim_end_is_take(s: Seq<char>, b: int)
    requires
        0 <= b <= s.len(),
        forall|k: int| b <= k < s.len() ==> s[k] == ' ',
        b == 0 || s[b - 1] != ' ',
    ensures
        trim_end(s) == s.take(b),
    decreases s.len(),
{
    if b == s.len() {
        assert(s.take(b) =~= s);
    } else {
        assert(s[s.len() - 1] == ' ');
        lemma_trim_end_is_take(s.take(s.len() - 1), b);
        assert(s.take(s.len() - 1).take(b) =~= s.take(b));
    }
}

/// Prefix a sequence onto the payload of a resolution outcome, keeping
/// failure as failure.
pub open spec fn opt_prepend(p: Seq<char>, r: Option<Seq<char>>) -> Option<Seq<char>> {
    match r {
        Some(t) => Some(p + t),
        None => None,
    }
}

/// What resolving a template against an environment yields: the template with
/// every `{{ key }}` placeholder replaced by `env[key]`, or `None` if a
/// referenced key is unbound or an opening `{{` is never closed.
pub open spec fn resolve_tpl(tpl: Seq<char>, env: Map<Seq<char>, Seq<char>>) -> Option<Seq<char>>
    decreases tpl.len(),
    via resolve_tpl_decreases
{
    if tpl.len() >= 2 && tpl[0] == '{' && tpl[1] == '{' {
        match find_close(tpl.skip(2)) {
            Some(j) => {
                let key = trim_spaces(tpl.skip(2).take(j));
                if env.contains_key(key) {
                    opt_prepend(env[key], resolve_tpl(tpl.skip(j + 4), env))
                } else {
                    None
                }
            },
            None => None,
        }
    } else if tpl.len() == 0 {
        Some(tpl)
    } else {
        opt_prepend(seq![tpl[0]], resolve_tpl(tpl.skip(1), env))
    }
}

#[via_fn]
proof fn resolve_tpl_decreases(tpl: Seq<char>, env: Map<Seq<char>, Seq<char>>) {
    if tpl.len() >= 2 && tpl[0] == '{' && tpl[1] == '{' {
        lemma_find_close_spec(tpl.skip(2));
        match find_close(tpl.skip(2)) {
            Some(j) => {
                assert(j + 1 < tpl.skip(2).len());
                assert(tpl.skip(j + 4).len() < tpl.len());
            },
            None => {},
        }
    }
}

/// The set of keys the template references: the trimmed text of each
/// placeholder the resolution scan reaches.
pub open spec fn tpl_refs(tpl: Seq<char>) -> Set<Seq<char>>
    decreases tpl.len(),
    via tpl_refs_decreases
{
    if tpl.len() >= 2 && tpl[0] == '{' && tpl[1] == '{' {
        match find_close(tpl.skip(2)) {
            Some(j) => tpl_refs(tpl.skip(j + 4)).insert(trim_spaces(tpl.skip(2).take(j))),
            None => Set::empty(),
        }
    } else if tpl.len() == 0 {
        Set::empty()
    } else {
        tpl_refs(tpl.skip(1))
    }
}

#[via_fn]
proof fn tpl_refs_decreases(tpl: Seq<char>) {
    if tpl.len() >= 2 && tpl[0] == '{' && tpl[1] == '{' {
        lemma_find_close_spec(tpl.skip(2));
        match find_close(tpl.skip(2)) {
            Some(j) => {
                assert(j + 1 < tpl.skip(2).len());
                assert(tpl.skip(j + 4).len() < tpl.len());
            },
            None => {},
        }
    }
}

/// On a template with no `{{` pair, resolution is the identity, whatever the
/// environment holds.
pub proof fn lemma_resolve_identity(tpl: Seq<char>, env: Map<Seq<char>, Seq<char>>)
    requires
        !has_open(tpl),
    ensures
        resolve_tpl(tpl, env) == Some(tpl),
    decreases tpl.len(),
{
    if tpl.len() >= 2 && tpl[0] == '{' && tpl[1] == '{' {
        assert(open_at(tpl, 0));
        assert(false);
    } else if tpl.len() == 0 {
    } else {
        assert forall|k: int| !open_at(tpl.skip(1), k) by {
            if open_at(tpl.skip(1), k) {
                assert(tpl.skip(1)[k] == tpl[k + 1]);
                assert(tpl.skip(1)[k + 1] == tpl[k + 2]);
                assert(open_at(tpl, k + 1));
            }
        }
        lemma_resolve_identity(tpl.skip(1), env);
        assert(seq![tpl[0]] + tpl.skip(1) =~= tpl);
    }
}

/// Resolving a template that references a key the environment does not bind
/// always fails: it never yields a string with an empty substitution.
pub proof fn lemma_resolve_unset_key_fails(
    tpl: Seq<char>,
    env: Map<Seq<char>, Seq<char>>,
    key: Seq<char>,
)
    requires
        tpl_refs(tpl).contains(key),
        !env.contains_key(key),
    ensures
        resolve_tpl(tpl, env) is None,
    decreases tpl.len(),
{
    if tpl.len() >= 2 && tpl[0] == '{' && tpl[1] == '{' {
        match find_close(tpl.skip(2)) {
            Some(j) => {
                lemma_find_close_spec(tpl.skip(2));
                let this_key = trim_spaces(tpl.skip(2).take(j));
                if this_key == key {
                } else {
                    lemma_resolve_unset_key_fails(tpl.skip(j + 4), env, key);
                }
            },
            None => {},
        }
    } else if tpl.len() == 0 {
        assert(false);
    } else {
        lemma_resolve_unset_key_fails(tpl.skip(1), env, key);
    }
}

/// The template that is exactly one placeholder around `key`.
pub open spec fn placeholder(key: Seq<char>) -> Seq<char> {
    seq!['{', '{'] + key + seq!['}', '}']
}

/// A key in its plain form: no braces and no spaces, so that it stands in a
/// placeholder unchanged.
pub open spec fn plain_key(key: Seq<char>) -> bool {
    forall|k: int| 0 <= k < key.len() ==> key[k] != '{' && key[k] != '}' && key[k] != ' '
}

/// Resolving a lone placeholder substitutes exactly the environment's value
/// for its key.
pub proof fn lemma_resolve_placeholder(key: Seq<char>, env: Map<Seq<char>, Seq<char>>)
    requires
        plain_key(key),
        env.contains_key(key),
    ensures
        resolve_tpl(placeholder(key), env) == Some(env[key]),
{
    let tpl = placeholder(key);
    let n = key.len() as int;
    assert(tpl.len() == n + 4);
    assert(tpl[0] == '{' && tpl[1] == '{');
    let inner = tpl.skip(2);
    assert(inner =~= key + seq!['}', '}']);
    assert(close_at(inner, n));
    assert forall|k: int| 0 <= k < n implies !close_at(inner, k) by {
        assert(inner[k] == key[k]);
    }
    lemma_find_close_spec(inner);
    match find_close(inner) {
        Some(j) => {
            if j < n {
                assert(close_at(inner, j));
                assert(false);
            }
            if j > n {
                assert(!close_at(inner, n));
                assert(false);
            }
            assert(j == n);
            assert(inner.take(n) =~= key);
            assert(trim_start(key) == key) by {
                lemma_trim_start_is_skip(key, 0);
                assert(key.skip(0) =~= key);
            }
            assert(trim_end(key) == key) by {
                lemma_trim_end_is_take(key, n);
                assert(key.take(n) =~= key);
            }
            assert(trim_spaces(inner.take(n)) == key);
            assert(tpl.skip(n + 4) =~= Seq::<char>::empty());
            assert(resolve_tpl(tpl.skip(n + 4), env) == Some(Seq::<char>::empty()));
            assert(env[key] + Seq::<char>::empty() =~= env[key]);
        },
        None => {
            assert(close_at(inner, n));
            assert(false);
        },
    }
}

/// Of two values written to the same key, the later one is what every
/// subsequent resolution referencing that key sees.
pub proof fn lemma_last_write_wins(
    env: Map<Seq<char>, Seq<char>>,
    key: Seq<char>,
    first: Seq<char>,
    second: Seq<char>,
)
    requires
        plain_key(key),
    ensures
        resolve_tpl(placeholder(key), env.insert(key, first).insert(key, second)) == Some(second),
{
    lemma_resolve_placeholder(key, env.insert(key, first).insert(key, second));
}

proof fn lemma_opt_prepend_assoc(a: Seq<char>, b: Seq<char>, r: Option<Seq<char>>)
    ensures
        opt_prepend(a, opt_prepend(b, r)) == opt_prepend(a + b, r),
{
    match r {
        Some(t) => {
            assert(a + (b + t) =~= (a + b) + t);
        },
        None => {},
    }
}

/// Resolution consumes one literal character when no placeholder opens at it.
proof fn lemma_resolve_step_char(tpl: Seq<char>, env: Map<Seq<char>, Seq<char>>, i: int)
    requires
        0 <= i < tpl.len(),
        !(i + 1 < tpl.len() && tpl[i] == '{' && tpl[i + 1] == '{'),
    ensures
        resolve_tpl(tpl.skip(i), env) == opt_prepend(
            seq![tpl[i]],
            resolve_tpl(tpl.skip(i + 1), env),
        ),
{
    let s = tpl.skip(i);
    assert(s[0] == tpl[i]);
    if s.len() >= 2 {
        assert(s[1] == tpl[i + 1]);
    }
    assert(s.skip(1) =~= tpl.skip(i + 1));
}

/// Resolution substitutes the key closed by the first `}}` pair when a
/// placeholder opens at `i`, and fails when the key is unbound.
proof fn lemma_resolve_step_placeholder(
    tpl: Seq<char>,
    env: Map<Seq<char>, Seq<char>>,
    i: int,
    j: int,
)
    requires
        0 <= i,
        i + 1 < tpl.len(),
        tpl[i] == '{',
        tpl[i + 1] == '{',
        i + 2 <= j,
        j + 1 < tpl.len(),
        tpl[j] == '}',
        tpl[j + 1] == '}',
        forall|k: int| i + 2 <= k < j ==> !(#[trigger] tpl[k] == '}' && tpl[k + 1] == '}'),
    ensures
        ({
            let key = trim_spaces(tpl.subrange(i + 2, j));
            resolve_tpl(tpl.skip(i), env) == if env.contains_key(key) {
                opt_prepend(env[key], resolve_tpl(tpl.skip(j + 2), env))
            } else {
                None::<Seq<char>>
            }
        }),
{
    let s = tpl.skip(i);
    let inner = s.skip(2);
    assert(inner =~= tpl.skip(i + 2));
    let jj = j - i - 2;
    assert(close_at(inner, jj)) by {
        assert(inner[jj] == tpl[j]);
        assert(inner[jj + 1] == tpl[j + 1]);
    }
    assert forall|k: int| 0 <= k < jj implies !close_at(inner, k) by {
        assert(inner[k] == tpl[i + 2 + k]);
        assert(inner[k + 1] == tpl[i + 2 + k + 1]);
    }
    lemma_find_close_spec(inner);
    match find_close(inner) {
        Some(j2) => {
            if j2 < jj {
                assert(close_at(inner, j2));
                assert(false);
            }
            if j2 > jj {
                assert(!close_at(inner, jj));
                assert(false);
            }
            assert(inner.take(jj) =~= tpl.subrange(i + 2, j));
            assert(s.skip(jj + 4) =~= tpl.skip(j + 2));
            assert(s.len() >= 2 && s[0] == '{' && s[1] == '{');
        },
        None => {
            assert(close_at(inner, jj));
            assert(false);
        },
    }
}

/// Resolution fails outright when a placeholder opens at `i` and no `}}` pair
/// follows it.
proof fn lemma_resolve_unclosed(tpl: Seq<char>, env: Map<Seq<char>, Seq<char>>, i: int)
    requires
        0 <= i,
        i + 1 < tpl.len(),
        tpl[i] == '{',
        tpl[i + 1] == '{',
        forall|k: int|
            i + 2 <= k && k + 1 < tpl.len() ==> !(#[trigger] tpl[k] == '}' && tpl[k + 1] == '}'),
    ensures
        resolve_tpl(tpl.skip(i), env) is None,
{
    let s = tpl.skip(i);
    let inner = s.skip(2);
    assert(inner =~= tpl.skip(i + 2));
    lemma_find_close_spec(inner);
    match find_close(inner) {
        Some(j) => {
            assert(close_at(inner, j));
            assert(inner[j] == tpl[i + 2 + j]);
            assert(inner[j + 1] == tpl[i + 2 + j + 1]);
            assert(false);
        },
        None => {
            assert(s.len() >= 2 && s[0] == '{' && s[1] == '{');
        },
    }
}

/// The environment a sequence of key/value writes builds up, later writes
/// overwriting earlier ones.
pub open spec fn pairs_env(pairs: Seq<(String, String)>) -> Map<Seq<char>, Seq<char>>
    decreases pairs.len(),
{
    if pairs.len() == 0 {
        Map::empty()
    } else {
        pairs_env(pairs.drop_last()).insert(pairs.last().0@, pairs.last().1@)
    }
}

proof fn lemma_pairs_env_found(pairs: Seq<(String, String)>, key: Seq<char>, i: int)
    requires
        0 <= i < pairs.len(),
        pairs[i].0@ == key,
        forall|k: int| i < k < pairs.len() ==> pairs[k].0@ != key,
    ensures
        pairs_env(pairs).contains_key(key),
        pairs_env(pairs)[key] == pairs[i].1@,
    decreases pairs.len(),
{
    if i == pairs.len() - 1 {
    } else {
        assert forall|k: int| i < k < pairs.drop_last().len() implies pairs.drop_last()[k].0@
            != key by {
            assert(pairs.drop_last()[k] == pairs[k]);
        }
        assert(pairs.drop_last()[i] == pairs[i]);
        lemma_pairs_env_found(pairs.drop_last(), key, i);
        assert(pairs.last().0@ != key);
    }
}

proof fn lemma_pairs_env_absent(pairs: Seq<(String, String)>, key: Seq<char>)
    requires
        forall|k: int| 0 <= k < pairs.len() ==> pairs[k].0@ != key,
    ensures
        !pairs_env(pairs).contains_key(key),
    decreases pairs.len(),
{
    if pairs.len() == 0 {
    } else {
        assert forall|k: int| 0 <= k < pairs.drop_last().len() implies pairs.drop_last()[k].0@
            != key by {
            assert(pairs.drop_last()[k] == pairs[k]);
        }
        lemma_pairs_env_absent(pairs.drop_last(), key);
        assert(pairs.last().0@ != key);
    }
}

/// A mutable key/value substitution environment that renders templates.
pub trait Resolver {
    /// The environment the resolver currently holds.
    spec fn env(&self) -> Map<Seq<char>, Seq<char>>;

    /// Render `tpl` against the environment: every placeholder substituted,
    /// everything else copied through, or a `TemplateError` carrying the
    /// template when a referenced key is unbound or a `{{` is never closed.
    fn resolve(&mut self, tpl: &str) -> (r: Result<String, ExecutorError>)
        ensures
            final(self).env() == old(self).env(),
            r is Ok <==> resolve_tpl(tpl@, old(self).env()) is Some,
            (r matches Ok(out) ==> Some(out@) == resolve_tpl(tpl@, old(self).env())),
            (r matches Err(e) ==> e matches ExecutorError::TemplateError(t) && t@ == tpl@),
    ;

    /// Bind `value` to `key`, overwriting any earlier binding of `key`.
    fn add_context(&mut self, key: String, value: &str)
        ensures
            final(self).env() == old(self).env().insert(key@, value@),
    ;
}

/// The environment store: the writes in order, [`pairs_env`] gives the map
/// they denote.
pub struct TemplateResolver {
    pairs: Vec<(String, String)>,
}

/// A fresh resolver holding the empty environment.
pub fn new() -> (r: TemplateResolver)
    ensures
        r.env() == Map::<Seq<char>, Seq<char>>::empty(),
{
    TemplateResolver { pairs: Vec::new() }
}

impl TemplateResolver {
    /// The value bound to `key`, if any.
    fn get(&self, key: &str) -> (r: Option<&String>)
        ensures
            match r {
                Some(v) => self.env().contains_key(key@) && v@ == self.env()[key@],
                None => !self.env().contains_key(key@),
            },
    {
        let owned = key.to_owned();
        let mut idx: usize = self.pairs.len();
        while idx > 0
            invariant
                idx <= self.pairs.len(),
                owned@ == key@,
                forall|k: int| idx <= k < self.pairs@.len() ==> self.pairs@[k].0@ != key@,
            decreases idx,
        {
            idx = idx - 1;
            if self.pairs[idx].0 == owned {
                proof {
                    lemma_pairs_env_found(self.pairs@, key@, idx as int);
                }
                return Some(&self.pairs[idx].1);
            }
        }
        proof {
            lemma_pairs_env_absent(self.pairs@, key@);
        }
        None
    }
}

impl Resolver for TemplateResolver {
    closed spec fn env(&self) -> Map<Seq<char>, Seq<char>> {
        pairs_env(self.pairs@)
    }

    fn resolve(&mut self, tpl: &str) -> (r: Result<String, ExecutorError>) {
        let ghost env0 = self.env();
        let n = tpl.unicode_len();
        let mut out = String::new();
        let mut i: usize = 0;
        proof {
            assert(tpl@.skip(0) =~= tpl@);
            match resolve_tpl(tpl@, env0) {
                Some(t) => {
                    assert(Seq::<char>::empty() + t =~= t);
                },
                None => {},
            }
        }
        while i < n
            invariant
                n == tpl@.len(),
                i <= n,
                *self == *old(self),
                self.env() == env0,
                resolve_tpl(tpl@, env0) == opt_prepend(out@, resolve_tpl(tpl@.skip(i as int), env0)),
            decreases n - i,
        {
            let c = tpl.get_char(i);
            if c == '{' && i + 1 < n && tpl.get_char(i + 1) == '{' {
                let mut j = i + 2;
                while j < n - 1 && !(tpl.get_char(j) == '}' && tpl.get_char(j + 1) == '}')
                    invariant
                        n == tpl@.len(),
                        i + 2 <= j <= n,
                        forall|k: int|
                            i + 2 <= k < j ==> !(#[trigger] tpl@[k] == '}' && tpl@[k + 1] == '}'),
                    decreases n - j,
                {
                    j = j + 1;
                }
                if j >= n - 1 {
                    proof {
                        lemma_resolve_unclosed(tpl@, env0, i as int);
                    }
                    return Err(ExecutorError::TemplateError(tpl.to_owned()));
                }
                let raw = tpl.substring_char(i + 2, j);
                let m = j - (i + 2);
                let mut a: usize = 0;
                while a < m && raw.get_char(a) == ' '
                    invariant
                        m == raw@.len(),
                        a <= m,
                        forall|k: int| 0 <= k < a ==> raw@[k] == ' ',
                    decreases m - a,
                {
                    a = a + 1;
                }
                let mut b: usize = m;
                while b > a && raw.get_char(b - 1) == ' '
                    invariant
                        m == raw@.len(),
                        a <= b <= m,
                        forall|k: int| b <= k < m ==> raw@[k] == ' ',
                    decreases b,
                {
                    b = b - 1;
                }
                let key = raw.substring_char(a, b);
                proof {
                    lemma_trim_start_is_skip(raw@, a as int);
                    assert forall|k: int| (b - a) <= k < raw@.skip(a as int).len() implies raw@.skip(
                        a as int,
                    )[k] == ' ' by {
                        assert(raw@.skip(a as int)[k] == raw@[k + a]);
                    }
                    if b > a {
                        assert(raw@.skip(a as int)[b - a - 1] == raw@[b - 1]);
                    }
                    lemma_trim_end_is_take(raw@.skip(a as int), b - a);
                    assert(raw@.skip(a as int).take(b - a) =~= raw@.subrange(a as int, b as int));
                    assert(key@ == trim_spaces(raw@));
                    lemma_resolve_step_placeholder(tpl@, env0, i as int, j as int);
                }
                match self.get(key) {
                    None => {
                        return Err(ExecutorError::TemplateError(tpl.to_owned()));
                    },
                    Some(v) => {
                        let ghost out_before = out@;
                        out.append(v.as_str());
                        proof {
                            lemma_opt_prepend_assoc(
                                out_before,
                                env0[key@],
                                resolve_tpl(tpl@.skip(j + 2), env0),
                            );
                        }
                        i = j + 2;
                    },
                }
            } else {
                let one = tpl.substring_char(i, i + 1);
                let ghost out_before = out@;
                out.append(one);
                proof {
                    lemma_resolve_step_char(tpl@, env0, i as int);
                    assert(one@ =~= seq![tpl@[i as int]]);
                    lemma_opt_prepend_assoc(
                        out_before,
                        seq![tpl@[i as int]],
                        resolve_tpl(tpl@.skip(i as int + 1), env0),
                    );
                }
                i = i + 1;
            }
        }
        proof {
            assert(tpl@.skip(n as int) =~= Seq::<char>::empty());
            assert(out@ + Seq::<char>::empty() =~= out@);
        }
        Ok(out)
    }

    fn add_context(&mut self, key: String, value: &str) {
        let v = value.to_owned();
        self.pairs.push((key, v));
        proof {
            assert(self.pairs@.drop_last() =~= old(self).pairs@);
        }
    }
}

} // verus!

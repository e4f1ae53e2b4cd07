use crate::snapshot::{strings_view, usable_keys};
use crate::text::{is_prefix, starts_with, trim_text, trimmed};
use vstd::prelude::*;

verus! {

/// Base cooldowns of the circuit breaker and its backoff ceiling.
#[derive(Clone, Copy, Debug, PartialEq, Eq)]
pub struct BanConfig {
    pub rate_limit_ms: u64,
    pub server_error_ms: u64,
    pub network_error_ms: u64,
    pub auth_error_ms: u64,
    pub max_backoff_pow: u32,
}

/// One configured upstream: stable id, base URL and optional weight.
#[derive(Debug)]
pub struct UpstreamConfig {
    pub id: String,
    pub base_url: String,
    pub weight: Option<usize>,
}

impl UpstreamConfig {
    /// A field-by-field copy.
    pub fn duplicate(&self) -> (r: UpstreamConfig)
        ensures
            r == *self,
    {
        UpstreamConfig { id: self.id.clone(), base_url: self.base_url.clone(), weight: self.weight }
    }
}

/// The proxy's configuration, as read from its configuration file.
#[derive(Debug)]
pub struct Config {
    pub listen_addr: String,
    pub worker_threads: Option<usize>,
    pub request_timeout_ms: u64,
    pub proxy_tokens: Option<Vec<String>>,
    pub admin_tokens: Vec<String>,
    pub data_dir: String,
    pub usage_inject_upstreams: Option<Vec<String>>,
    pub ban: BanConfig,
    pub upstreams: Vec<UpstreamConfig>,
}

/// Why a configuration was refused.
#[derive(Clone, Copy, Debug, PartialEq, Eq)]
pub enum ConfigError {
    AdminTokensEmpty,
    UpstreamsEmpty,
    /// The id of the upstream at this position is blank.
    EmptyUpstreamId(usize),
    /// The base URL of the upstream at this position is not http(s).
    BadBaseUrl(usize),
}

impl ConfigError {
    pub fn message(&self) -> &'static str {
        match self {
            ConfigError::AdminTokensEmpty => "config: admin_tokens must not be empty",
            ConfigError::UpstreamsEmpty => "config: upstreams must not be empty",
            ConfigError::EmptyUpstreamId(_) => "config: upstream id must not be empty",
            ConfigError::BadBaseUrl(_) => "config: upstream base_url must start with http:// or https://",
        }
    }
}

/// Each entry trimmed, blank ones dropped.
pub fn clean_list(v: &Vec<String>) -> (r: Vec<String>)
    ensures
        strings_view(r@) == usable_keys(strings_view(v@)),
{
    let ghost vs = strings_view(v@);
    let mut out: Vec<String> = Vec::new();
    let mut i: usize = 0;
    while i < v.len()
        invariant
            vs == strings_view(v@),
            i <= v@.len(),
            strings_view(out@) == usable_keys(vs.subrange(0, i as int)),
        decreases v@.len() - i,
    {
        assert(vs.subrange(0, i + 1).drop_last() =~= vs.subrange(0, i as int));
        assert(vs.subrange(0, i + 1).last() == v@[i as int]@);
        let t = trim_text(v[i].as_str());
        let ghost before = out@;
        if t.as_str().unicode_len() != 0 {
            out.push(t);
            assert(strings_view(out@) =~= strings_view(before).push(t@));
        }
        i = i + 1;
    }
    assert(vs.subrange(0, i as int) =~= vs);
    out
}

pub open spec fn cleaned_option(v: Option<Vec<String>>) -> Option<Seq<Seq<char>>> {
    match v {
        Some(l) => if usable_keys(strings_view(l@)).len() > 0 {
            Some(usable_keys(strings_view(l@)))
        } else {
            None
        },
        None => None,
    }
}

pub open spec fn option_view(v: Option<Vec<String>>) -> Option<Seq<Seq<char>>> {
    match v {
        Some(l) => Some(strings_view(l@)),
        None => None,
    }
}

fn clean_option(v: &Option<Vec<String>>) -> (r: Option<Vec<String>>)
    ensures
        option_view(r) == cleaned_option(*v),
{
    match v {
        Some(l) => {
            let c = clean_list(l);
            if c.len() > 0 {
                Some(c)
            } else {
                None
            }
        },
        None => None,
    }
}

pub open spec fn http_base(s: Seq<char>) -> bool {
    is_prefix("http://"@, s) || is_prefix("https://"@, s)
}

/// What is wrong with the `i`-th upstream entry, if anything.
pub open spec fn entry_error(us: Seq<UpstreamConfig>, i: int) -> Option<ConfigError> {
    if trimmed(us[i].id@).len() == 0 {
        Some(ConfigError::EmptyUpstreamId(i as usize))
    } else if !http_base(us[i].base_url@) {
        Some(ConfigError::BadBaseUrl(i as usize))
    } else {
        None
    }
}

pub open spec fn first_entry_error(us: Seq<UpstreamConfig>, n: int) -> Option<ConfigError>
    decreases n,
{
    if n <= 0 {
        None
    } else {
        match first_entry_error(us, n - 1) {
            Some(e) => Some(e),
            None => entry_error(us, n - 1),
        }
    }
}

proof fn lemma_first_entry_error_sticks(us: Seq<UpstreamConfig>, n: int, m: int)
    requires
        0 < n <= m,
        first_entry_error(us, n - 1) is None,
        entry_error(us, n - 1) is Some,
    ensures
        first_entry_error(us, m) == entry_error(us, n - 1),
    decreases m - n,
{
    if m > n {
        lemma_first_entry_error_sticks(us, n, m - 1);
    }
}

/// The verdict on a configuration: the first problem found, if any.
pub open spec fn validation_result(c: &Config) -> Result<(), ConfigError> {
    if c.admin_tokens@.len() == 0 {
        Err(ConfigError::AdminTokensEmpty)
    } else if c.upstreams@.len() == 0 {
        Err(ConfigError::UpstreamsEmpty)
    } else {
        match first_entry_error(c.upstreams@, c.upstreams@.len() as int) {
            Some(e) => Err(e),
            None => Ok(()),
        }
    }
}

impl Config {
    /// Trims the token lists and the usage-injection list and drops blank
    /// entries; an optional list left empty becomes absent.
    pub fn normalize(&mut self)
        ensures
            option_view(final(self).proxy_tokens) == cleaned_option(old(self).proxy_tokens),
            strings_view(final(self).admin_tokens@) == usable_keys(strings_view(old(self).admin_tokens@)),
            option_view(final(self).usage_inject_upstreams) == cleaned_option(old(self).usage_inject_upstreams),
            final(self).upstreams == old(self).upstreams,
            final(self).ban == old(self).ban,
            final(self).listen_addr == old(self).listen_addr,
            final(self).data_dir == old(self).data_dir,
            final(self).request_timeout_ms == old(self).request_timeout_ms,
            final(self).worker_threads == old(self).worker_threads,
    {
        self.proxy_tokens = clean_option(&self.proxy_tokens);
        self.admin_tokens = clean_list(&self.admin_tokens);
        self.usage_inject_upstreams = clean_option(&self.usage_inject_upstreams);
    }

    /// Refuses a configuration without admin tokens or upstreams, or with an
    /// upstream whose id is blank or whose base URL is not http(s); the first
    /// problem found is reported.
    pub fn validate(&self) -> (r: Result<(), ConfigError>)
        ensures
            r == validation_result(self),
    {
        if self.admin_tokens.len() == 0 {
            return Err(ConfigError::AdminTokensEmpty);
        }
        if self.upstreams.len() == 0 {
            return Err(ConfigError::UpstreamsEmpty);
        }
        let n = self.upstreams.len();
        let mut i: usize = 0;
        while i < n
            invariant
                n == self.upstreams@.len(),
                self.admin_tokens@.len() != 0,
                i <= n,
                first_entry_error(self.upstreams@, i as int) is None,
            decreases n - i,
        {
            let u = &self.upstreams[i];
            let id = trim_text(u.id.as_str());
            if id.as_str().unicode_len() == 0 {
                proof {
                    assert(entry_error(self.upstreams@, i as int) == Some(ConfigError::EmptyUpstreamId(i)));
                    lemma_first_entry_error_sticks(self.upstreams@, i + 1, n as int);
                }
                return Err(ConfigError::EmptyUpstreamId(i));
            }
            if !(starts_with(u.base_url.as_str(), "http://") || starts_with(u.base_url.as_str(), "https://")) {
                proof {
                    assert(entry_error(self.upstreams@, i as int) == Some(ConfigError::BadBaseUrl(i)));
                    lemma_first_entry_error_sticks(self.upstreams@, i + 1, n as int);
                }
                return Err(ConfigError::BadBaseUrl(i));
            }
            i = i + 1;
        }
        Ok(())
    }
}

} // verus!

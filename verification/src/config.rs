//! What can be configured, and when a configuration is valid.
use crate::error_mapping::{mapping_error, reports, ErrorMapping, MappingView};
use crate::json::{Json, Tree};
use crate::table::{distinct, lemma_map_of, map_of, stands_at, Table};
use crate::text::{byte_count, byte_len, is_tight, tight, white_space};
use vstd::prelude::*;
use vstd::utf8::encode_utf8;

verus! {

broadcast use vstd::string::group_string_axioms;

/// How attempts on one credential are admitted.
#[derive(Clone, Copy, Debug, PartialEq, Eq, Structural)]
pub struct Policy {
    pub enabled: bool,
    /// Tokens that flow in per minute; 0 turns the rate limit off.
    pub requests_per_minute: u32,
    /// Tokens that a bucket holds at most, and at first.
    pub burst: u32,
    /// Attempts that run at a time; 0 turns this limit off.
    pub max_concurrency: usize,
    /// Requests that wait at a time.
    pub max_queue: usize,
    pub queue_timeout_ms: u64,
}

/// The policy that stands where none is configured.
pub open spec fn default_policy() -> Policy {
    Policy {
        enabled: true,
        requests_per_minute: 60,
        burst: 1,
        max_concurrency: 2,
        max_queue: 100,
        queue_timeout_ms: 30_000,
    }
}

impl Default for Policy {
    fn default() -> (r: Self)
        ensures
            r == default_policy(),
    {
        Policy {
            enabled: true,
            requests_per_minute: 60,
            burst: 1,
            max_concurrency: 2,
            max_queue: 100,
            queue_timeout_ms: 30_000,
        }
    }
}

/// What is wrong with a policy.
pub open spec fn policy_error(policy: Policy) -> Option<Seq<char>> {
    if policy.burst == 0 || policy.burst > 1_000_000 {
        Some("burst must be between 1 and 1000000"@)
    } else if policy.requests_per_minute > 60_000_000 {
        Some("requests_per_minute exceeds 60000000"@)
    } else if policy.max_concurrency > 100_000 || policy.max_queue > 100_000 {
        Some("max_concurrency and max_queue must not exceed 100000"@)
    } else if policy.queue_timeout_ms == 0 || policy.queue_timeout_ms > 300_000 {
        Some("queue_timeout_ms must be between 1 and 300000"@)
    } else {
        None
    }
}

impl Policy {
    /// Whether the limits are in bounds, and if not, why.
    pub fn validate(&self) -> (r: Result<(), String>)
        ensures
            reports(r, policy_error(*self)),
    {
        if self.burst == 0 || self.burst > 1_000_000 {
            return Err("burst must be between 1 and 1000000".to_string());
        }
        if self.requests_per_minute > 60_000_000 {
            return Err("requests_per_minute exceeds 60000000".to_string());
        }
        if self.max_concurrency > 100_000 || self.max_queue > 100_000 {
            return Err("max_concurrency and max_queue must not exceed 100000".to_string());
        }
        if self.queue_timeout_ms == 0 || self.queue_timeout_ms > 300_000 {
            return Err("queue_timeout_ms must be between 1 and 300000".to_string());
        }
        Ok(())
    }
}

/// The policies of the credentials. An override is a policy of its own: what it
/// leaves out comes from the built-in values, not from `default`.
#[derive(Debug)]
pub struct CredentialPolicies {
    pub default: Policy,
    pub overrides: Table<Policy>,
}

#[derive(Debug)]
pub struct Config {
    /// Set by the host, as are `priority` and `store`.
    pub enabled: bool,
    pub priority: i64,
    pub store: Option<Json>,
    pub max_tracked_requests: usize,
    pub max_credentials: usize,
    pub credentials: CredentialPolicies,
    pub error_mapping: ErrorMapping,
    /// Reserved: must be empty.
    pub api_keys: Table<Json>,
}

pub struct ConfigView {
    pub enabled: bool,
    pub priority: i64,
    pub store: Option<Tree>,
    pub max_tracked_requests: usize,
    pub max_credentials: usize,
    pub default: Policy,
    pub overrides: Seq<(Seq<char>, Policy)>,
    pub error_mapping: MappingView,
    pub api_keys: Seq<(Seq<char>, Tree)>,
}

impl View for Config {
    type V = ConfigView;

    open spec fn view(&self) -> ConfigView {
        ConfigView {
            enabled: self.enabled,
            priority: self.priority,
            store: crate::json::tree_of(self.store),
            max_tracked_requests: self.max_tracked_requests,
            max_credentials: self.max_credentials,
            default: self.credentials.default,
            overrides: self.credentials.overrides@,
            error_mapping: self.error_mapping@,
            api_keys: self.api_keys@.map_values(|entry: (Seq<char>, Json)| (entry.0, entry.1@)),
        }
    }
}

/// The configuration that stands where none is given.
pub open spec fn default_config() -> ConfigView {
    ConfigView {
        enabled: true,
        priority: 100,
        store: None,
        max_tracked_requests: 10_000,
        max_credentials: 10_000,
        default: default_policy(),
        overrides: Seq::empty(),
        error_mapping: MappingView { enabled: false, rules: Seq::empty() },
        api_keys: Seq::empty(),
    }
}

impl Default for CredentialPolicies {
    fn default() -> (r: Self)
        ensures
            r.default == default_policy(),
            r.overrides@ == Seq::<(Seq<char>, Policy)>::empty(),
    {
        CredentialPolicies { default: Policy::default(), overrides: Table::new() }
    }
}

impl Default for Config {
    fn default() -> (r: Self)
        ensures
            r@ == default_config(),
    {
        let r = Config {
            enabled: true,
            priority: 100,
            store: None,
            max_tracked_requests: 10_000,
            max_credentials: 10_000,
            credentials: CredentialPolicies::default(),
            error_mapping: ErrorMapping::default(),
            api_keys: Table::new(),
        };
        assert(r@.api_keys == default_config().api_keys);
        r
    }
}

/// What is wrong with an override.
pub open spec fn override_error(entry: (Seq<char>, Policy)) -> Option<Seq<char>> {
    if entry.0.len() == 0 || !tight(entry.0) || byte_len(entry.0) > 1024 {
        Some("invalid credential override identifier"@)
    } else {
        policy_error(entry.1)
    }
}

/// What is wrong with the first faulty override from an index on.
pub open spec fn first_override_error(entries: Seq<(Seq<char>, Policy)>, i: int) -> Option<Seq<char>>
    decreases entries.len() - i,
{
    if 0 <= i < entries.len() {
        match override_error(entries[i]) {
            Some(message) => Some(message),
            None => first_override_error(entries, i + 1),
        }
    } else {
        None
    }
}

/// What is wrong with a configuration.
pub open spec fn config_error(config: ConfigView) -> Option<Seq<char>> {
    if mapping_error(config.error_mapping) is Some {
        mapping_error(config.error_mapping)
    } else if config.api_keys.len() > 0 {
        Some("api_keys policies are reserved and not implemented in phase one"@)
    } else if !(1 <= config.max_tracked_requests <= 100_000) || !(1 <= config.max_credentials
        <= 100_000) {
        Some("tracking limits must be between 1 and 100000"@)
    } else if policy_error(config.default) is Some {
        policy_error(config.default)
    } else if config.overrides.len() > config.max_credentials {
        Some("too many credential overrides"@)
    } else {
        first_override_error(config.overrides, 0)
    }
}

/// Whether an override can be used, and if not, why.
fn check_override(id: &str, policy: &Policy) -> (r: Result<(), String>)
    ensures
        reports(r, override_error((id@, *policy))),
{
    if id.is_empty() || !is_tight(id) || byte_count(id) > 1024 {
        return Err("invalid credential override identifier".to_string());
    }
    policy.validate()
}

/// The policy of a credential: its override, else the default one. A switched-off
/// configuration switches off every policy.
pub open spec fn policy_for(config: ConfigView, credential: Seq<char>) -> Policy {
    let overrides = map_of(config.overrides);
    let policy = if overrides.dom().contains(credential) {
        overrides[credential]
    } else {
        config.default
    };
    Policy { enabled: policy.enabled && config.enabled, ..policy }
}

/// The configuration that a document holds, given what YAML was read from it: an
/// empty document stands for the default one.
pub open spec fn configured(yaml: Seq<u8>, decoded: Option<ConfigView>) -> Option<ConfigView> {
    if yaml.len() == 0 {
        Some(default_config())
    } else {
        decoded
    }
}

/// The valid configuration that a document holds, or why there is none.
pub open spec fn parsed(yaml: Seq<u8>, decoded: Option<ConfigView>) -> Result<ConfigView, Seq<char>> {
    match configured(yaml, decoded) {
        Some(config) => match config_error(config) {
            Some(message) => Err(message),
            None => Ok(config),
        },
        None => Err("invalid policy YAML"@),
    }
}

/// The view of an optional configuration.
pub open spec fn config_of(config: Option<Config>) -> Option<ConfigView> {
    match config {
        Some(config) => Some(config@),
        None => None,
    }
}

impl Config {
    /// The valid configuration that a document holds. `decoded` is what the YAML
    /// decoder read from it; its diagnostics are dropped, as they may quote secrets.
    pub fn parse(yaml: &[u8], decoded: Option<Config>) -> (r: Result<Config, String>)
        ensures
            match r {
                Ok(config) => parsed(yaml@, config_of(decoded)) == Ok::<ConfigView, Seq<char>>(
                    config@,
                ),
                Err(message) => parsed(yaml@, config_of(decoded)) == Err::<ConfigView, Seq<char>>(
                    message@,
                ),
            },
    {
        let config = if yaml.is_empty() {
            Config::default()
        } else {
            match decoded {
                Some(config) => config,
                None => {
                    return Err("invalid policy YAML".to_string());
                },
            }
        };
        config.validate()?;
        Ok(config)
    }

    /// Whether the configuration can be used, and if not, why.
    pub fn validate(&self) -> (r: Result<(), String>)
        ensures
            reports(r, config_error(self@)),
    {
        self.error_mapping.validate()?;
        if self.api_keys.len() > 0 {
            return Err(
                "api_keys policies are reserved and not implemented in phase one".to_string(),
            );
        }
        if !(1 <= self.max_tracked_requests && self.max_tracked_requests <= 100_000) || !(1
            <= self.max_credentials && self.max_credentials <= 100_000) {
            return Err("tracking limits must be between 1 and 100000".to_string());
        }
        self.credentials.default.validate()?;
        let overrides = &self.credentials.overrides;
        if overrides.len() > self.max_credentials {
            return Err("too many credential overrides".to_string());
        }
        let mut i: usize = 0;
        while i < overrides.len()
            invariant
                i <= overrides@.len(),
                overrides == &self.credentials.overrides,
                config_error(self@) == first_override_error(self@.overrides, i as int),
            decreases overrides@.len() - i,
        {
            check_override(overrides.key_at(i), overrides.value_at(i))?;
            i += 1;
        }
        Ok(())
    }

    /// The policy of a credential.
    pub fn policy(&self, credential: &str) -> (r: Policy)
        ensures
            r == policy_for(self@, credential@),
    {
        let mut policy = match self.credentials.overrides.get(credential) {
            Some(policy) => *policy,
            None => self.credentials.default,
        };
        policy.enabled = policy.enabled && self.enabled;
        policy
    }
}

/// An override holds for its credential and for no other; the others have the
/// default policy. A switched-off configuration switches every policy off.
pub proof fn law_overrides_are_exact(config: ConfigView, i: int, credential: Seq<char>)
    requires
        distinct(config.overrides),
        0 <= i < config.overrides.len(),
    ensures
        ({
            let (id, policy) = config.overrides[i];
            policy_for(config, id) == (Policy {
                enabled: policy.enabled && config.enabled,
                ..policy
            })
        }),
        (forall|j: int| 0 <= j < config.overrides.len() ==> (#[trigger] config.overrides[j]).0
            != credential) ==> policy_for(config, credential) == (Policy {
            enabled: config.default.enabled && config.enabled,
            ..config.default
        }),
        !config.enabled ==> !policy_for(config, credential).enabled,
{
    lemma_map_of(config.overrides);
    if forall|j: int| 0 <= j < config.overrides.len() ==> (#[trigger] config.overrides[j]).0
        != credential {
        if map_of(config.overrides).dom().contains(credential) {
            let j = choose|j: int| stands_at(config.overrides, credential, j);
            assert(config.overrides[j].0 != credential);
        }
    }
}

/// In a valid configuration every policy is within its limits: the default one and
/// every override, and so the one of every credential. Policies for API keys are
/// refused.
pub proof fn law_valid_means_every_policy_is(config: ConfigView, credential: Seq<char>)
    requires
        distinct(config.overrides),
        config_error(config) is None,
    ensures
        config.api_keys.len() == 0,
        config.overrides.len() <= config.max_credentials,
        policy_error(config.default) is None,
        forall|i: int|
            0 <= i < config.overrides.len() ==> override_error(#[trigger] config.overrides[i]) is None,
        policy_error(policy_for(config, credential)) is None,
{
    lemma_no_override_error(config.overrides, 0);
    lemma_map_of(config.overrides);
    if map_of(config.overrides).dom().contains(credential) {
        let j = choose|j: int| stands_at(config.overrides, credential, j);
        assert(override_error(config.overrides[j]) is None);
        assert(map_of(config.overrides)[config.overrides[j].0] == config.overrides[j].1);
    }
}

proof fn lemma_no_override_error(entries: Seq<(Seq<char>, Policy)>, i: int)
    requires
        0 <= i <= entries.len(),
        first_override_error(entries, i) is None,
    ensures
        forall|j: int| i <= j < entries.len() ==> override_error(#[trigger] entries[j]) is None,
    decreases entries.len() - i,
{
    if i < entries.len() {
        lemma_no_override_error(entries, i + 1);
    }
}

/// The configuration that stands where none is given is valid.
pub proof fn law_default_is_valid()
    ensures
        config_error(default_config()) is None,
{
}

impl Clone for CredentialPolicies {
    fn clone(&self) -> (r: Self)
        ensures
            r.default == self.default,
            r.overrides@ == self.overrides@,
    {
        let overrides = self.overrides.clone();
        assert(overrides@ =~= self.overrides@);
        CredentialPolicies { default: self.default, overrides }
    }
}

impl Clone for Config {
    fn clone(&self) -> (r: Self)
        ensures
            r@ == self@,
    {
        let store = match &self.store {
            Some(store) => Some(store.clone()),
            None => None,
        };
        let api_keys = self.api_keys.clone();
        let r = Config {
            enabled: self.enabled,
            priority: self.priority,
            store,
            max_tracked_requests: self.max_tracked_requests,
            max_credentials: self.max_credentials,
            credentials: self.credentials.clone(),
            error_mapping: self.error_mapping.clone(),
            api_keys,
        };
        assert(r@.api_keys =~= self@.api_keys);
        r
    }
}

/// When a policy is faulty, and what is said of it: the first of these that holds.
pub proof fn law_faults_of_policies(policy: Policy)
    ensures
        ({
            let burst_fits = 1 <= policy.burst <= 1_000_000;
            let rate_fits = policy.requests_per_minute <= 60_000_000;
            let counts_fit = policy.max_concurrency <= 100_000 && policy.max_queue <= 100_000;
            let timeout_fits = 1 <= policy.queue_timeout_ms <= 300_000;
            let fault = policy_error(policy);
            &&& !burst_fits ==> fault == Some("burst must be between 1 and 1000000"@)
            &&& burst_fits && !rate_fits ==> fault == Some("requests_per_minute exceeds 60000000"@)
            &&& burst_fits && rate_fits && !counts_fit ==> fault == Some(
                "max_concurrency and max_queue must not exceed 100000"@,
            )
            &&& burst_fits && rate_fits && counts_fit && !timeout_fits ==> fault == Some(
                "queue_timeout_ms must be between 1 and 300000"@,
            )
            &&& burst_fits && rate_fits && counts_fit && timeout_fits ==> fault is None
        }),
{
}

/// When a configuration is faulty, and what is said of it: the first of these that
/// holds. The identifier of an override is between 1 and 1024 bytes long and has no
/// white space at its ends; of several faulty overrides the first one is told.
pub proof fn law_faults_of_configurations(config: ConfigView, i: int)
    ensures
        ({
            let fault = config_error(config);
            let mapping = mapping_error(config.error_mapping);
            let limits_fit = 1 <= config.max_tracked_requests <= 100_000 && 1
                <= config.max_credentials <= 100_000;
            let default = policy_error(config.default);
            let few = config.overrides.len() <= config.max_credentials;
            let so_far = mapping is None && config.api_keys.len() == 0 && limits_fit && default
                is None && few;
            &&& mapping is Some ==> fault == mapping
            &&& mapping is None && config.api_keys.len() > 0 ==> fault == Some(
                "api_keys policies are reserved and not implemented in phase one"@,
            )
            &&& mapping is None && config.api_keys.len() == 0 && !limits_fit ==> fault == Some(
                "tracking limits must be between 1 and 100000"@,
            )
            &&& mapping is None && config.api_keys.len() == 0 && limits_fit && default is Some
                ==> fault == default
            &&& mapping is None && config.api_keys.len() == 0 && limits_fit && default is None
                && !few ==> fault == Some("too many credential overrides"@)
            &&& so_far && (forall|j: int|
                0 <= j < config.overrides.len() ==> usable_override(#[trigger] config.overrides[j]))
                ==> fault is None
            &&& so_far && 0 <= i < config.overrides.len() && !usable_override(config.overrides[i])
                && (forall|j: int|
                0 <= j < i ==> usable_override(#[trigger] config.overrides[j])) ==> fault
                == if named_override(config.overrides[i].0) {
                policy_error(config.overrides[i].1)
            } else {
                Some("invalid credential override identifier"@)
            }
        }),
{
    let default = policy_error(config.default);
    let all = forall|j: int|
        0 <= j < config.overrides.len() ==> usable_override(#[trigger] config.overrides[j]);
    if all {
        lemma_first_unusable(config.overrides, 0, config.overrides.len() as int);
    }
    if 0 <= i < config.overrides.len() && !usable_override(config.overrides[i]) && (forall|j: int|
        0 <= j < i ==> usable_override(#[trigger] config.overrides[j])) {
        lemma_first_unusable(config.overrides, 0, i);
    }
}

/// An identifier that an override can have.
pub open spec fn named_override(id: Seq<char>) -> bool {
    &&& 0 < id.len()
    &&& encode_utf8(id).len() <= 1024
    &&& !white_space(id[0])
    &&& !white_space(id.last())
}

/// An override that can be used.
pub open spec fn usable_override(entry: (Seq<char>, Policy)) -> bool {
    named_override(entry.0) && policy_error(entry.1) is None
}

proof fn lemma_first_unusable(entries: Seq<(Seq<char>, Policy)>, from: int, i: int)
    requires
        0 <= from <= i <= entries.len(),
        forall|j: int| from <= j < i ==> usable_override(#[trigger] entries[j]),
        i < entries.len() ==> !usable_override(entries[i]),
    ensures
        first_override_error(entries, from) == if i < entries.len() {
            if named_override(entries[i].0) {
                policy_error(entries[i].1)
            } else {
                Some("invalid credential override identifier"@)
            }
        } else {
            None
        },
    decreases i - from,
{
    if from < i {
        assert(usable_override(entries[from]));
        lemma_first_unusable(entries, from + 1, i);
    }
}

/// The values that stand where nothing is configured.
pub proof fn law_built_in_values()
    ensures
        ({
            let config = default_config();
            let policy = config.default;
            &&& policy.enabled
            &&& policy.requests_per_minute == 60
            &&& policy.burst == 1
            &&& policy.max_concurrency == 2
            &&& policy.max_queue == 100
            &&& policy.queue_timeout_ms == 30_000
            &&& default_policy() == policy
            &&& config.enabled
            &&& config.priority == 100
            &&& config.store is None
            &&& config.max_tracked_requests == 10_000
            &&& config.max_credentials == 10_000
            &&& config.overrides.len() == 0
            &&& config.api_keys.len() == 0
            &&& !config.error_mapping.enabled
            &&& config.error_mapping.rules.len() == 0
        }),
{
}

/// What a document comes to: an empty one is the built-in configuration, one that was
/// not read is refused, and so is one that is not valid, with what is wrong with it.
pub proof fn law_documents(yaml: Seq<u8>, read: Option<ConfigView>)
    ensures
        yaml.len() == 0 ==> parsed(yaml, read) == Ok::<ConfigView, Seq<char>>(default_config()),
        yaml.len() > 0 && read is None ==> parsed(yaml, read) == Err::<ConfigView, Seq<char>>(
            "invalid policy YAML"@,
        ),
        yaml.len() > 0 && read is Some ==> match config_error(read->Some_0) {
            None => parsed(yaml, read) == Ok::<ConfigView, Seq<char>>(read->Some_0),
            Some(message) => parsed(yaml, read) == Err::<ConfigView, Seq<char>>(message),
        },
{
}

/// A credential without an override has the default policy, and one with an override
/// has that one, whatever the others hold; either way it is switched on only where the
/// configuration is.
pub proof fn law_policies_of_credentials(config: ConfigView, credential: Seq<char>, own: Policy)
    requires
        distinct(config.overrides),
    ensures
        ({
            let policy = policy_for(config, credential);
            &&& (forall|j: int|
                0 <= j < config.overrides.len() ==> (#[trigger] config.overrides[j]).0
                    != credential) ==> policy == (Policy {
                enabled: config.default.enabled && config.enabled,
                ..config.default
            })
            &&& config.overrides.contains((credential, own)) ==> policy == (Policy {
                enabled: own.enabled && config.enabled,
                ..own
            })
        }),
{
    lemma_map_of(config.overrides);
    if forall|j: int| 0 <= j < config.overrides.len() ==> (#[trigger] config.overrides[j]).0
        != credential {
        if map_of(config.overrides).dom().contains(credential) {
            let j = choose|j: int| stands_at(config.overrides, credential, j);
            assert(config.overrides[j].0 != credential);
        }
    }
    if config.overrides.contains((credential, own)) {
        let j = choose|j: int|
            0 <= j < config.overrides.len() && config.overrides[j] == (credential, own);
        law_overrides_are_exact(config, j, credential);
    }
}

} // verus!

//! Per-service rules.
//!
//! Rules are data, not code, so adding a service or correcting its cache key is a configuration
//! change rather than a release.
use crate::config::units;
use crate::config::units::{parse_size, power_of_two, quoted};
use crate::text;
use vstd::prelude::*;
use vstd::string::*;

verus! {

/// Why a rules file cannot be used.
#[derive(Debug, PartialEq, Eq)]
pub enum RulesError {
    Read { path: String, source: String },
    Parse { path: String, source: String },
    /// A rule cannot work, for this service.
    Invalid { service: String, reason: String },
}

impl RulesError {
    pub open spec fn message_spec(self) -> Seq<char> {
        match self {
            RulesError::Read { path, source } => "cannot read rules file "@ + path@ + ": "@
                + source@,
            RulesError::Parse { path, source } => "rules file "@ + path@ + " is invalid: "@
                + source@,
            RulesError::Invalid { service, reason } => "service "@ + units::quoted_text(service@)
                + ": "@ + reason@,
        }
    }

    /// The error in words.
    pub fn message(&self) -> (out: String)
        ensures
            out@ == self.message_spec(),
    {
        match self {
            RulesError::Read { path, source } => {
                let mut out = "cannot read rules file ".to_owned();
                out.append(path.as_str());
                out.append(": ");
                out.append(source.as_str());
                out
            },
            RulesError::Parse { path, source } => {
                let mut out = "rules file ".to_owned();
                out.append(path.as_str());
                out.append(" is invalid: ");
                out.append(source.as_str());
                out
            },
            RulesError::Invalid { service, reason } => {
                let mut out = "service ".to_owned();
                out.append(quoted(service.as_str()).as_str());
                out.append(": ");
                out.append(reason.as_str());
                out
            },
        }
    }
}

/// How a service's cache key is derived from a request.
#[derive(Debug, PartialEq, Eq)]
pub struct ServiceRule {
    /// Keep the query string in the cache key. Off by default: most CDNs put authentication
    /// tokens there, and keeping them would make every request a miss.
    pub keep_query: bool,
    /// Put the request host into the cache key. Off by default, which is what lets several CDN
    /// host names for the same content share one cached copy.
    pub include_host: bool,
    /// Honour upstream `Cache-Control` and `Expires` instead of the configured maximum age.
    pub honour_upstream_cache_control: bool,
    /// Fetch upstream over https rather than matching the client's scheme.
    pub upstream_https: bool,
    /// Slice size override for this service.
    pub slice_size: Option<String>,
    /// Cap on concurrent upstream fetches for this service.
    pub max_inflight: Option<usize>,
    /// Only cache paths matching these patterns, if any are given.
    pub include_paths: Vec<String>,
    /// Never cache paths matching these patterns.
    pub exclude_paths: Vec<String>,
}

impl ServiceRule {
    /// Nothing is asked for.
    pub open spec fn is_plain(self) -> bool {
        &&& !self.keep_query
        &&& !self.include_host
        &&& !self.honour_upstream_cache_control
        &&& !self.upstream_https
        &&& self.slice_size is None
        &&& self.max_inflight is None
        &&& self.include_paths@.len() == 0
        &&& self.exclude_paths@.len() == 0
    }
}

impl Default for ServiceRule {
    fn default() -> (out: Self)
        ensures
            out.is_plain(),
    {
        ServiceRule {
            keep_query: false,
            include_host: false,
            honour_upstream_cache_control: false,
            upstream_https: false,
            slice_size: None,
            max_inflight: None,
            include_paths: Vec::new(),
            exclude_paths: Vec::new(),
        }
    }
}

/// A service and its rule.
#[derive(Debug, PartialEq, Eq)]
pub struct NamedRule {
    pub service: String,
    pub rule: ServiceRule,
}

/// The rules file as a whole.
#[derive(Debug, PartialEq, Eq)]
pub struct Rules {
    /// Applied to every service that has no rule of its own.
    pub defaults: ServiceRule,
    /// The services with a rule of their own, in the order of their names.
    pub services: Vec<NamedRule>,
}

/// What is wrong with a rule, if anything.
pub open spec fn rule_fault(rule: ServiceRule) -> Option<Seq<char>> {
    let inflight = if rule.max_inflight == Some(0usize) {
        Some("max_inflight must be at least 1"@)
    } else {
        None
    };
    match rule.slice_size {
        None => inflight,
        Some(s) => match units::size_spec(s@) {
            Err(e) => Some("slice_size: "@ + units::failure_text(e)),
            Ok(n) => if units::is_power_of_two(n as nat) {
                inflight
            } else {
                Some("slice_size "@ + units::quoted_text(s@) + " must be a power of two"@)
            },
        },
    }
}

/// The first service whose rule has something wrong with it, and what that is.
pub open spec fn first_fault(services: Seq<NamedRule>) -> Option<(Seq<char>, Seq<char>)>
    decreases services.len(),
{
    if services.len() == 0 {
        None
    } else {
        match rule_fault(services[0].rule) {
            Some(why) => Some((services[0].service@, why)),
            None => first_fault(services.skip(1)),
        }
    }
}

/// Where a service stands among the rules, where it does.
pub open spec fn position(services: Seq<NamedRule>, service: Seq<char>) -> Option<int>
    decreases services.len(),
{
    if services.len() == 0 {
        None
    } else if services[0].service@ == service {
        Some(0)
    } else {
        match position(services.skip(1), service) {
            Some(i) => Some(i + 1),
            None => None,
        }
    }
}

impl Default for Rules {
    fn default() -> (out: Self)
        ensures
            out.services@.len() == 0,
            rule_fault(out.defaults) is None,
            out.defaults.is_plain(),
    {
        Rules { defaults: ServiceRule::default(), services: Vec::new() }
    }
}

fn check_rule(rule: &ServiceRule) -> (out: Option<String>)
    ensures
        match rule_fault(*rule) {
            Some(why) => out matches Some(o) && o@ == why,
            None => out is None,
        },
{
    if let Some(slice) = &rule.slice_size {
        match parse_size(slice.as_str()) {
            Err(e) => return Some("slice_size: ".to_owned().concat(e.message().as_str())),
            Ok(size) => {
                if !power_of_two(size) {
                    let mut reason = "slice_size ".to_owned();
                    reason.append(quoted(slice.as_str()).as_str());
                    reason.append(" must be a power of two");
                    return Some(reason);
                }
            },
        }
    }
    if let Some(n) = rule.max_inflight {
        if n == 0 {
            return Some("max_inflight must be at least 1".to_owned());
        }
    }
    None
}

impl Rules {
    /// Rejects rules that cannot work, naming the first service that has one.
    pub fn validate(&self) -> (out: Result<(), RulesError>)
        ensures
            match first_fault(self.services@) {
                None => out is Ok,
                Some((name, why)) => out matches Err(RulesError::Invalid { service, reason })
                    && service@ == name && reason@ == why,
            },
    {
        let n: usize = self.services.len();
        let ghost all = self.services@;
        assert(all.skip(0) =~= all);
        for i in 0..n
            invariant
                n == self.services@.len(),
                all == self.services@,
                first_fault(all) == first_fault(all.skip(i as int)),
        {
            let entry = &self.services[i];
            assert(all.skip(i as int)[0] == *entry);
            assert(all.skip(i as int).skip(1) =~= all.skip(i as int + 1));
            match check_rule(&entry.rule) {
                Some(reason) => return Err(
                    RulesError::Invalid { service: entry.service.clone(), reason },
                ),
                None => {},
            }
        }
        Ok(())
    }

    /// The rule that is in force for a service.
    pub open spec fn rule_for(self, service: Seq<char>) -> ServiceRule {
        match position(self.services@, service) {
            Some(i) => self.services@[i].rule,
            None => self.defaults,
        }
    }

    /// The effective rule for a service: its own entry if present, otherwise the defaults.
    pub fn for_service(&self, service: &str) -> (out: &ServiceRule)
        ensures
            *out == self.rule_for(service@),
    {
        let n: usize = self.services.len();
        let ghost all = self.services@;
        assert(all.skip(0) =~= all);
        for i in 0..n
            invariant
                n == self.services@.len(),
                all == self.services@,
                position(all, service@) == (match position(all.skip(i as int), service@) {
                    Some(k) => Some(k + i),
                    None => None,
                }),
        {
            assert(all.skip(i as int)[0] == all[i as int]);
            assert(all.skip(i as int).skip(1) =~= all.skip(i as int + 1));
            if text::same(self.services[i].service.as_str(), service) {
                return &self.services[i].rule;
            }
        }
        &self.defaults
    }
}

/// The rule in force for a service is the first that is listed under its name, and the defaults
/// where none is.
pub proof fn services_have_their_own_rule_or_the_defaults(
    rules: Rules,
    service: Seq<char>,
    i: int,
)
    requires
        0 <= i <= rules.services@.len(),
        forall|k: int| 0 <= k < i ==> (#[trigger] rules.services@[k]).service@ != service,
    ensures
        i < rules.services@.len() && rules.services@[i].service@ == service ==> rules.rule_for(
            service,
        ) == rules.services@[i].rule,
        i == rules.services@.len() ==> rules.rule_for(service) == rules.defaults,
{
    lemma_position(rules.services@, service, i);
}

proof fn lemma_position(services: Seq<NamedRule>, service: Seq<char>, i: int)
    requires
        0 <= i <= services.len(),
        forall|k: int| 0 <= k < i ==> (#[trigger] services[k]).service@ != service,
    ensures
        i < services.len() && services[i].service@ == service ==> position(services, service)
            == Some(i),
        i == services.len() ==> position(services, service) is None,
    decreases i,
{
    if i > 0 {
        assert(services[0].service@ != service);
        assert forall|k: int| 0 <= k < i - 1 implies (#[trigger] services.skip(1)[k]).service@
            != service by {
            assert(services.skip(1)[k] == services[k + 1]);
        }
        lemma_position(services.skip(1), service, i - 1);
        if i < services.len() {
            assert(services.skip(1)[i - 1] == services[i]);
        }
    }
}

/// A rule is wrong exactly where it allows no fetch at all, or where its slice size is no size or no
/// power of two.
pub proof fn rules_are_wrong_where_they_cannot_work(rule: ServiceRule)
    ensures
        rule_fault(rule) is None <==> {
            &&& rule.max_inflight matches Some(n) ==> n >= 1
            &&& rule.slice_size matches Some(s) ==> {
                &&& units::size_spec(s@) matches Ok(n)
                &&& exists|e: nat| n == #[trigger] vstd::arithmetic::power2::pow2(e)
            }
        },
{
    if let Some(s) = rule.slice_size {
        if let Ok(n) = units::size_spec(s@) {
            units::powers_of_two_come_of_doubling(n as nat, 0);
            if exists|e: nat| n == #[trigger] vstd::arithmetic::power2::pow2(e) {
                let e = choose|e: nat| n == #[trigger] vstd::arithmetic::power2::pow2(e);
                units::powers_of_two_come_of_doubling(0, e);
            }
        }
    }
}

/// The first rule that is wrong is the one that is reported, under the name of its service.
pub proof fn the_first_wrong_rule_is_reported(services: Seq<NamedRule>, i: int)
    requires
        0 <= i <= services.len(),
        forall|k: int| 0 <= k < i ==> rule_fault((#[trigger] services[k]).rule) is None,
    ensures
        i == services.len() ==> first_fault(services) is None,
        i < services.len() ==> (rule_fault(services[i].rule) matches Some(why) ==> first_fault(
            services,
        ) == Some((services[i].service@, why))),
    decreases i,
{
    if i > 0 {
        assert(rule_fault(services[0].rule) is None);
        assert forall|k: int| 0 <= k < i - 1 implies rule_fault(
            (#[trigger] services.skip(1)[k]).rule,
        ) is None by {
            assert(services.skip(1)[k] == services[k + 1]);
        }
        the_first_wrong_rule_is_reported(services.skip(1), i - 1);
        if i < services.len() {
            assert(services.skip(1)[i - 1] == services[i]);
        }
    }
}

} // verus!

//! The rules that are there before any operator writes one.
//!
//! Everything here is an exclusion: content that is deliberately not cached, generally because it
//! is a small file that changes often and whose staleness breaks a client. Caching a certificate
//! revocation list or a version manifest is worse than not caching at all.
use crate::config::rules;
use crate::config::rules::{NamedRule, Rules, ServiceRule};
use crate::text;
use vstd::prelude::*;
use vstd::string::*;

verus! {

/// A rule that does nothing but exclude some paths.
pub open spec fn excludes_only(rule: ServiceRule, paths: Seq<Seq<char>>) -> bool {
    &&& !rule.keep_query
    &&& !rule.include_host
    &&& !rule.honour_upstream_cache_control
    &&& !rule.upstream_https
    &&& rule.slice_size is None
    &&& rule.max_inflight is None
    &&& rule.include_paths@.len() == 0
    &&& text::texts(rule.exclude_paths@) == paths
}

/// In the order of their names, and no name twice.
pub open spec fn ordered(services: Seq<NamedRule>) -> bool {
    forall|i: int, j: int|
        0 <= i < j < services.len() ==> text::precedes(
            (#[trigger] services[i]).service@,
            (#[trigger] services[j]).service@,
        )
}

/// Whether a service has this rule.
pub open spec fn has_rule(services: Seq<NamedRule>, service: Seq<char>, rule: ServiceRule) -> bool {
    exists|i: int|
        0 <= i < services.len() && (#[trigger] services[i]).service@ == service && services[i].rule
            == rule
}

/// Whether a service has a rule of its own.
pub open spec fn names(services: Seq<NamedRule>, service: Seq<char>) -> bool {
    exists|i: int| 0 <= i < services.len() && (#[trigger] services[i]).service@ == service
}

/// The paths that the shipped rules exclude for a service.
pub open spec fn shipped_exclusions(service: Seq<char>) -> Option<Seq<Seq<char>>> {
    if service == "arenanet"@ {
        Some(seq!["^/latest64"@])
    } else if service == "riot"@ {
        Some(seq!["releaselisting_"@, "\\.version$"@])
    } else if service == "steam"@ {
        Some(seq!["^/server-status$"@])
    } else if service == "wsus"@ {
        Some(
            seq![
                "(?i)authrootstl\\.cab$"@,
                "(?i)pinrulesstl\\.cab$"@,
                "(?i)disallowedcertstl\\.cab$"@,
            ],
        )
    } else {
        None
    }
}

fn exclusion(service: &str, exclude_paths: Vec<String>) -> (out: NamedRule)
    ensures
        out.service@ == service@,
        excludes_only(out.rule, text::texts(exclude_paths@)),
{
    NamedRule {
        service: service.to_owned(),
        rule: ServiceRule {
            keep_query: false,
            include_host: false,
            honour_upstream_cache_control: false,
            upstream_https: false,
            slice_size: None,
            max_inflight: None,
            include_paths: Vec::new(),
            exclude_paths,
        },
    }
}

/// Rules shipped by default, before any operator file is applied.
pub fn shipped() -> (out: Rules)
    ensures
        excludes_only(out.defaults, Seq::empty()),
        ordered(out.services@),
        forall|s: Seq<char>| names(out.services@, s) <==> shipped_exclusions(s) is Some,
        forall|s: Seq<char>, r: ServiceRule|
            has_rule(out.services@, s, r) ==> shipped_exclusions(s) is Some && excludes_only(
                r,
                shipped_exclusions(s)->0,
            ),
{
    // A manifest that names the newest build.
    let arenanet = exclusion("arenanet", vec!["^/latest64".to_owned()]);
    // Release listings and version files: small, frequently changed, and a stale one sends a
    // client after content that no longer exists.
    let riot = exclusion("riot", vec!["releaselisting_".to_owned(), "\\.version$".to_owned()]);
    let steam = exclusion("steam", vec!["^/server-status$".to_owned()]);
    // Certificate trust lists. A stale revocation list is a security problem, not a cache miss.
    let wsus = exclusion(
        "wsus",
        vec![
            "(?i)authrootstl\\.cab$".to_owned(),
            "(?i)pinrulesstl\\.cab$".to_owned(),
            "(?i)disallowedcertstl\\.cab$".to_owned(),
        ],
    );
    proof {
        reveal_strlit("arenanet");
        reveal_strlit("riot");
        reveal_strlit("steam");
        reveal_strlit("wsus");
        assert(text::texts(arenanet.rule.exclude_paths@) =~= seq!["^/latest64"@]);
        assert(text::texts(riot.rule.exclude_paths@) =~= seq!["releaselisting_"@, "\\.version$"@]);
        assert(text::texts(steam.rule.exclude_paths@) =~= seq!["^/server-status$"@]);
        assert(text::texts(wsus.rule.exclude_paths@) =~= seq![
            "(?i)authrootstl\\.cab$"@,
            "(?i)pinrulesstl\\.cab$"@,
            "(?i)disallowedcertstl\\.cab$"@,
        ]);
        assert("arenanet"@[0] == 'a' && "riot"@[0] == 'r' && "steam"@[0] == 's' && "wsus"@[0]
            == 'w');
    }
    let out = Rules { defaults: ServiceRule::default(), services: vec![arenanet, riot, steam, wsus] };
    proof {
        let s = out.services@;
        assert(text::texts(out.defaults.exclude_paths@) =~= Seq::empty());
        assert(s[0].service@ == "arenanet"@ && s[1].service@ == "riot"@ && s[2].service@
            == "steam"@ && s[3].service@ == "wsus"@);
    }
    out
}

/// Puts a rule where it belongs, in place of the one that the service had.
pub(crate) fn insert(services: &mut Vec<NamedRule>, entry: NamedRule)
    requires
        ordered(old(services)@),
    ensures
        ordered(final(services)@),
        forall|s: Seq<char>, r: ServiceRule|
            has_rule(final(services)@, s, r) <==> (if s == entry.service@ {
                r == entry.rule
            } else {
                has_rule(old(services)@, s, r)
            }),
{
    let n: usize = services.len();
    let ghost before = services@;
    let ghost key = entry.service@;
    let ghost rule = entry.rule;
    let mut i: usize = 0;
    while i < n && text::before(services[i].service.as_str(), entry.service.as_str())
        invariant
            n == services@.len(),
            i <= n,
            services@ == before,
            key == entry.service@,
            forall|j: int| 0 <= j < i ==> text::precedes((#[trigger] before[j]).service@, key),
        decreases n - i,
    {
        i = i + 1;
    }
    if i < n && text::same(services[i].service.as_str(), entry.service.as_str()) {
        services.set(i, entry);
        proof {
            let after = services@;
            assert(after =~= before.update(i as int, entry));
            assert forall|s: Seq<char>, r: ServiceRule|
                has_rule(after, s, r) <==> (if s == key {
                    r == rule
                } else {
                    has_rule(before, s, r)
                }) by {
                if has_rule(after, s, r) {
                    let k = choose|k: int|
                        0 <= k < after.len() && (#[trigger] after[k]).service@ == s && after[k].rule
                            == r;
                    if k != i {
                        assert(before[k] == after[k]);
                        assert(before[i as int].service@ == key);
                        text::lemma_precedes_total(before[k].service@, before[i as int].service@);
                        text::lemma_precedes_total(before[i as int].service@, before[k].service@);
                    }
                }
                if s == key {
                    assert(after[i as int].service@ == key);
                } else if has_rule(before, s, r) {
                    let k = choose|k: int|
                        0 <= k < before.len() && (#[trigger] before[k]).service@ == s
                            && before[k].rule == r;
                    assert(after[k] == before[k]);
                }
            }
        }
    } else {
        proof {
            assert forall|j: int| i <= j < n implies text::precedes(
                key,
                (#[trigger] before[j]).service@,
            ) by {
                text::lemma_precedes_total(before[i as int].service@, key);
                if j > i {
                    text::lemma_precedes_transitive(
                        key,
                        before[i as int].service@,
                        before[j].service@,
                    );
                }
            }
        }
        services.insert(i, entry);
        proof {
            let after = services@;
            assert(after =~= before.insert(i as int, entry));
            assert forall|a: int, b: int| 0 <= a < b < after.len() implies text::precedes(
                (#[trigger] after[a]).service@,
                (#[trigger] after[b]).service@,
            ) by {
                let x = if a < i {
                    a
                } else {
                    a - 1
                };
                let y = if b < i {
                    b
                } else {
                    b - 1
                };
                if a != i {
                    assert(after[a] == before[x]);
                }
                if b != i {
                    assert(after[b] == before[y]);
                }
            }
            assert forall|s: Seq<char>, r: ServiceRule|
                has_rule(after, s, r) <==> (if s == key {
                    r == rule
                } else {
                    has_rule(before, s, r)
                }) by {
                if has_rule(after, s, r) {
                    let k = choose|k: int|
                        0 <= k < after.len() && (#[trigger] after[k]).service@ == s && after[k].rule
                            == r;
                    if k < i {
                        assert(before[k] == after[k]);
                        text::lemma_precedes_total(before[k].service@, key);
                    } else if k > i {
                        assert(before[k - 1] == after[k]);
                        text::lemma_precedes_total(key, before[k - 1].service@);
                    }
                }
                if s == key {
                    assert(after[i as int].service@ == key);
                } else if has_rule(before, s, r) {
                    let k = choose|k: int|
                        0 <= k < before.len() && (#[trigger] before[k]).service@ == s
                            && before[k].rule == r;
                    if k < i {
                        assert(after[k] == before[k]);
                    } else {
                        assert(after[k + 1] == before[k]);
                    }
                }
            }
        }
    }
}

/// What the rules are once an operator's are merged over the shipped ones: the operator's for each
/// service that has one of those, the shipped one for the others.
pub open spec fn merged_rule(
    operator: Seq<NamedRule>,
    shipped: Seq<NamedRule>,
    service: Seq<char>,
    rule: ServiceRule,
) -> bool {
    if names(operator, service) {
        has_rule(operator, service, rule)
    } else {
        has_rule(shipped, service, rule)
    }
}

/// Merge an operator's rules over the shipped defaults.
///
/// An operator entry replaces the shipped one for that service outright rather than merging field
/// by field. Half-overriding a rule set produces a configuration nobody wrote and nobody can
/// predict.
pub fn merge(operator: Rules) -> (out: Rules)
    requires
        ordered(operator.services@),
    ensures
        out.defaults == operator.defaults,
        ordered(out.services@),
        forall|s: Seq<char>, r: ServiceRule|
            names(operator.services@, s) ==> (has_rule(out.services@, s, r) <==> has_rule(
                operator.services@,
                s,
                r,
            )),
        forall|s: Seq<char>, r: ServiceRule|
            !names(operator.services@, s) && has_rule(out.services@, s, r)
                ==> shipped_exclusions(s) is Some && excludes_only(r, shipped_exclusions(s)->0),
        forall|s: Seq<char>|
            names(out.services@, s) <==> names(operator.services@, s) || shipped_exclusions(
                s,
            ) is Some,
{
    let base = shipped();
    let ghost own = operator.services@;
    let ghost given = base.services@;
    let mut merged: Vec<NamedRule> = base.services;
    let mut rest: Vec<NamedRule> = operator.services;
    proof {
        assert(own.skip(own.len() as int) =~= Seq::empty());
    }
    while rest.len() > 0
        invariant
            ordered(own),
            ordered(merged@),
            rest@.len() <= own.len(),
            rest@ == own.take(rest@.len() as int),
            forall|s: Seq<char>, r: ServiceRule|
                has_rule(merged@, s, r) <==> merged_rule(
                    own.skip(rest@.len() as int),
                    given,
                    s,
                    r,
                ),
        decreases rest@.len(),
    {
        let ghost k = rest@.len() - 1;
        let ghost later = own.skip(k + 1);
        let ghost now = own.skip(k);
        let ghost before = merged@;
        match rest.pop() {
            Some(entry) => {
                assert(entry == own[k]);
                insert(&mut merged, entry);
                proof {
                    assert(rest@ =~= own.take(k));
                    assert(now[0] == entry);
                    assert forall|s: Seq<char>, r: ServiceRule|
                        has_rule(merged@, s, r) <==> merged_rule(now, given, s, r) by {
                        assert forall|q: Seq<char>| names(now, q) <==> q == entry.service@ || names(
                            later,
                            q,
                        ) by {
                            if names(now, q) {
                                let m = choose|m: int|
                                    0 <= m < now.len() && (#[trigger] now[m]).service@ == q;
                                if m > 0 {
                                    assert(later[m - 1] == now[m]);
                                }
                            }
                            if names(later, q) {
                                let m = choose|m: int|
                                    0 <= m < later.len() && (#[trigger] later[m]).service@ == q;
                                assert(now[m + 1] == later[m]);
                            }
                            if q == entry.service@ {
                                assert(now[0].service@ == q);
                            }
                        }
                        if s == entry.service@ {
                            if has_rule(now, s, r) {
                                let m = choose|m: int|
                                    0 <= m < now.len() && (#[trigger] now[m]).service@ == s
                                        && now[m].rule == r;
                                if m > 0 {
                                    assert(now[m] == own[k + m]);
                                    text::lemma_precedes_total(
                                        own[k].service@,
                                        own[k + m].service@,
                                    );
                                }
                            }
                            if r == entry.rule {
                                assert(now[0].service@ == s && now[0].rule == r);
                            }
                        } else {
                            if has_rule(now, s, r) {
                                let m = choose|m: int|
                                    0 <= m < now.len() && (#[trigger] now[m]).service@ == s
                                        && now[m].rule == r;
                                assert(later[m - 1] == now[m]);
                            }
                            if has_rule(later, s, r) {
                                let m = choose|m: int|
                                    0 <= m < later.len() && (#[trigger] later[m]).service@ == s
                                        && later[m].rule == r;
                                assert(now[m + 1] == later[m]);
                            }
                        }
                    }
                }
            },
            None => {},
        }
    }
    proof {
        assert(own.skip(0) =~= own);
        assert forall|s: Seq<char>|
            names(merged@, s) <==> names(own, s) || shipped_exclusions(s) is Some by {
            if names(merged@, s) {
                let m = choose|m: int|
                    0 <= m < merged@.len() && (#[trigger] merged@[m]).service@ == s;
                assert(has_rule(merged@, s, merged@[m].rule));
            }
            if names(own, s) {
                let m = choose|m: int| 0 <= m < own.len() && (#[trigger] own[m]).service@ == s;
                assert(has_rule(own, s, own[m].rule));
                assert(has_rule(merged@, s, own[m].rule));
            } else if names(given, s) {
                let m = choose|m: int| 0 <= m < given.len() && (#[trigger] given[m]).service@ == s;
                assert(has_rule(given, s, given[m].rule));
                assert(has_rule(merged@, s, given[m].rule));
            }
        }
    }
    Rules { defaults: operator.defaults, services: merged }
}

/// What [`Rules::for_service`] looks up is the rule that the service has.
pub proof fn looked_up_rules_are_the_services_own(services: Seq<NamedRule>, service: Seq<char>)
    ensures
        match rules::position(services, service) {
            Some(i) => 0 <= i < services.len() && services[i].service@ == service && has_rule(
                services,
                service,
                services[i].rule,
            ),
            None => !names(services, service),
        },
    decreases services.len(),
{
    if services.len() > 0 && services[0].service@ != service {
        let rest = services.skip(1);
        looked_up_rules_are_the_services_own(rest, service);
        match rules::position(rest, service) {
            Some(i) => {
                assert(services[i + 1] == rest[i]);
            },
            None => {
                if names(services, service) {
                    let m = choose|m: int|
                        0 <= m < services.len() && (#[trigger] services[m]).service@ == service;
                    assert(rest[m - 1] == services[m]);
                }
            },
        }
    }
}

/// Rules are shipped for these four services and for no other.
pub proof fn few_services_have_shipped_rules(service: Seq<char>)
    ensures
        shipped_exclusions(service) is Some <==> service == "arenanet"@ || service == "riot"@
            || service == "steam"@ || service == "wsus"@,
{
}

/// An operator's rule stands for a service alone, whatever is shipped for it; a shipped one stands
/// only where the operator has none.
pub proof fn operators_rules_replace_shipped_ones(
    operator: Seq<NamedRule>,
    shipped: Seq<NamedRule>,
    i: int,
    service: Seq<char>,
    rule: ServiceRule,
)
    requires
        0 <= i < operator.len(),
        ordered(operator),
    ensures
        merged_rule(operator, shipped, operator[i].service@, rule) <==> rule == operator[i].rule,
        (forall|k: int| 0 <= k < operator.len() ==> (#[trigger] operator[k]).service@ != service)
            ==> (merged_rule(operator, shipped, service, rule) <==> has_rule(
            shipped,
            service,
            rule,
        )),
{
    let own = operator[i].service@;
    assert(names(operator, own));
    if has_rule(operator, own, rule) {
        let k = choose|k: int|
            0 <= k < operator.len() && (#[trigger] operator[k]).service@ == own && operator[k].rule
                == rule;
        if k < i {
            text::lemma_precedes_total(operator[k].service@, operator[i].service@);
        } else if k > i {
            text::lemma_precedes_total(operator[i].service@, operator[k].service@);
        }
    }
}

} // verus!

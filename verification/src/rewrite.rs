//! Rules that pick requests and rewrite them.
use crate::errors::HttpProxyErr;
use crate::headers::{has_field, law_put, lookup, put};
use crate::http::{Head, MessageKind, Request};
use crate::text::str_eq;
use crate::transmittable::{valid_head, HttpTransmittable};
use std::sync::Arc;
use vstd::prelude::*;

verus! {

/// A rule that picks requests and rewrites them.
pub trait ProxtRule {
    /// The rule picks a request with this head.
    spec fn applies(&self, head: Head) -> bool;

    /// The head that the rule makes of a request's head.
    spec fn rewritten(&self, head: Head) -> Head;

    fn matches(&self, request: &Request) -> (yes: bool)
        requires
            valid_head(MessageKind::Request, request.head()),
        ensures
            yes == self.applies(request.head()),
    ;

    fn rewrite(&self, request: &mut Request)
        requires
            valid_head(MessageKind::Request, old(request).head()),
        ensures
            final(request).head() == self.rewritten(old(request).head()),
            final(request).body() == old(request).body(),
            valid_head(MessageKind::Request, final(request).head()),
    ;
}

/// A request for this host.
pub open spec fn is_for_host(head: Head, host: Seq<char>) -> bool {
    lookup(head.fields, "Host"@) == Some(host)
}

/// A head with another host.
pub open spec fn with_host(head: Head, host: Seq<char>) -> Head {
    Head { fields: put(head.fields, "Host"@, host), ..head }
}

/// Whether a request is for a host.
pub fn request_is_for(request: &Request, host: &str) -> (yes: bool)
    requires
        valid_head(MessageKind::Request, request.head()),
    ensures
        yes == is_for_host(request.head(), host@),
{
    match request.get_headers().get("Host") {
        Some(value) => str_eq(value, host),
        None => false,
    }
}

/// Gives a request another host.
pub fn set_request_host(request: &mut Request, host: &str)
    requires
        valid_head(MessageKind::Request, old(request).head()),
    ensures
        final(request).head() == with_host(old(request).head(), host@),
        final(request).body() == old(request).body(),
        valid_head(MessageKind::Request, final(request).head()),
        is_for_host(final(request).head(), host@),
{
    proof {
        law_put(request.head().fields, "Host"@, host@);
    }
    request.set_headers("Host", host);
    assert(has_field(request.head().fields, "Host"@));
}

/// Sends the requests for one host on under another.
pub struct ProxyRuleHost {
    pub from: String,
    pub to: String,
}

impl ProxyRuleHost {
    pub fn new(from: &str, to: &str) -> (rule: Arc<Self>)
        ensures
            rule.from@ == from@,
            rule.to@ == to@,
    {
        Arc::new(ProxyRuleHost { from: from.to_owned(), to: to.to_owned() })
    }
}

impl ProxtRule for ProxyRuleHost {
    open spec fn applies(&self, head: Head) -> bool {
        is_for_host(head, self.from@)
    }

    open spec fn rewritten(&self, head: Head) -> Head {
        with_host(head, self.to@)
    }

    fn matches(&self, request: &Request) -> (yes: bool) {
        request_is_for(request, self.from.as_str())
    }

    fn rewrite(&self, request: &mut Request) {
        set_request_host(request, self.to.as_str());
    }
}

impl<R: ProxtRule> ProxtRule for Arc<R> {
    open spec fn applies(&self, head: Head) -> bool {
        (**self).applies(head)
    }

    open spec fn rewritten(&self, head: Head) -> Head {
        (**self).rewritten(head)
    }

    fn matches(&self, request: &Request) -> (yes: bool) {
        (**self).matches(request)
    }

    fn rewrite(&self, request: &mut Request) {
        (**self).rewrite(request)
    }
}

/// Rules in the order in which they are tried.
pub type ProxyRules = Vec<Arc<ProxyRuleHost>>;

/// `i` is the first rule that picks a head.
pub open spec fn is_first_rule<R: ProxtRule>(rules: Seq<R>, head: Head, i: int) -> bool {
    &&& 0 <= i < rules.len()
    &&& rules[i].applies(head)
    &&& forall|j: int| 0 <= j < i ==> !(#[trigger] rules[j]).applies(head)
}

/// The position of the first rule that picks a head.
pub open spec fn first_rule<R: ProxtRule>(rules: Seq<R>, head: Head) -> Option<int> {
    if exists|i: int| is_first_rule(rules, head, i) {
        Some(choose|i: int| is_first_rule(rules, head, i))
    } else {
        None
    }
}

/// What rewriting a request by the first rule that picks it comes to: the new head and the position
/// of the rule.
pub open spec fn rewrite_head<R: ProxtRule>(rules: Seq<R>, head: Head) -> Result<(Head, int), HttpProxyErr> {
    match first_rule(rules, head) {
        Some(i) => Ok((rules[i].rewritten(head), i)),
        None => Err(HttpProxyErr::ProxyRuleNotFound),
    }
}

/// Rewrites a request by the first rule that picks it, and gives that rule's position.
pub fn proxy_rewrite_request<R: ProxtRule>(request: &mut Request, proxy_rules: &Vec<R>) -> (applied: Result<
    usize,
    HttpProxyErr,
>)
    requires
        valid_head(MessageKind::Request, old(request).head()),
    ensures
        match applied {
            Ok(i) => {
                &&& is_first_rule(proxy_rules@, old(request).head(), i as int)
                &&& rewrite_head(proxy_rules@, old(request).head()) == Ok::<(Head, int), HttpProxyErr>(
                    (final(request).head(), i as int),
                )
            },
            Err(e) => {
                &&& rewrite_head(proxy_rules@, old(request).head()) == Err::<(Head, int), HttpProxyErr>(e)
                &&& final(request).head() == old(request).head()
            },
        },
        final(request).body() == old(request).body(),
        valid_head(MessageKind::Request, final(request).head()),
{
    let n: usize = proxy_rules.len();
    let mut i: usize = 0;
    while i < n
        invariant
            n == proxy_rules@.len(),
            i <= n,
            valid_head(MessageKind::Request, request.head()),
            request.head() == old(request).head(),
            request.body() == old(request).body(),
            forall|j: int| 0 <= j < i ==> !(#[trigger] proxy_rules@[j]).applies(request.head()),
        decreases n - i,
    {
        let rule = &proxy_rules[i];
        if rule.matches(request) {
            assert(is_first_rule(proxy_rules@, request.head(), i as int));
            assert forall|k: int| is_first_rule(proxy_rules@, request.head(), k) implies k == i by {
                if k < i {
                    assert(!proxy_rules@[k].applies(request.head()));
                } else if i < k {
                    assert(!proxy_rules@[i as int].applies(request.head()));
                }
            }
            rule.rewrite(request);
            return Ok(i);
        }
        i += 1;
    }
    Err(HttpProxyErr::ProxyRuleNotFound)
}

} // verus!

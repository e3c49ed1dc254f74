//! What holds of every configuration that is accepted.
use crate::config::{
    backend_named, backend_of, backends_of, host_header, host_rule_of, is_backend, port_of, rule_of, rules_of,
    Backend, Failure, HostRule,
};
use crate::document::{converts_to, has_size, whole_number, Json, NumberParts};
use crate::double::{double_to_uint, scale, significand, whole_part, SIGN};
use crate::headers::{has_field, law_put, lookup};
use crate::http::{Head, MessageKind};
use crate::rewrite::{is_for_host, with_host};
use crate::server::{address_by, server_of, servers_of, worker_limit, Addresses, Server};
use crate::transmittable::valid_head;
use vstd::arithmetic::power2::*;
use vstd::prelude::*;

verus! {

/// No two backends have the same name.
pub open spec fn unique_backends(backends: Seq<Backend>) -> bool {
    forall|i: int, j: int|
        #![trigger backends[i], backends[j]]
        0 <= i < j < backends.len() ==> backends[i].name != backends[j].name
}

/// The accepted backends are those that the values describe, in their order, and no two of them
/// have the same name.
pub proof fn law_backends(values: Seq<Json>, backends: Seq<Backend>)
    requires
        backends_of(values) == Ok::<Seq<Backend>, Failure>(backends),
    ensures
        backends.len() == values.len(),
        forall|i: int|
            0 <= i < values.len() ==> backend_of(#[trigger] values[i]) == Ok::<Backend, Failure>(
                backends[i],
            ),
        unique_backends(backends),
    decreases values.len(),
{
    if values.len() > 0 {
        let first = backends_of(values.drop_last())->Ok_0;
        law_backends(values.drop_last(), first);
        let last = backend_of(values.last())->Ok_0;
        assert(backends == first.push(last));
        assert forall|i: int| 0 <= i < values.len() implies backend_of(#[trigger] values[i]) == Ok::<
            Backend,
            Failure,
        >(backends[i]) by {
            if i < values.len() - 1 {
                assert(values.drop_last()[i] == values[i]);
            }
        }
        assert forall|i: int, j: int|
            #![trigger backends[i], backends[j]]
            0 <= i < j < backends.len() implies backends[i].name != backends[j].name by {
            assert(first[i] == backends[i]);
            if j < first.len() {
                assert(first[j] == backends[j]);
            }
        }
    }
}

/// Where no two backends have the same name, each is found by its own.
pub proof fn law_found_by_name(backends: Seq<Backend>, i: int)
    requires
        unique_backends(backends),
        0 <= i < backends.len(),
    ensures
        backend_named(backends, backends[i].name) == Some(backends[i]),
{
    let name = backends[i].name;
    assert(is_backend(backends, name, i));
    assert forall|k: int| is_backend(backends, name, k) implies k == i by {
        if i < k {
            assert(backends[i].name != backends[k].name);
        }
    }
}

/// The accepted rules are those that the values describe, in their order, and each sends its
/// requests to one of the backends.
pub proof fn law_rules(values: Seq<Json>, backends: Seq<Backend>, rules: Seq<HostRule>)
    requires
        rules_of(values, backends) == Ok::<Seq<HostRule>, Failure>(rules),
    ensures
        rules.len() == values.len(),
        forall|i: int|
            0 <= i < values.len() ==> rule_of(#[trigger] values[i], backends) == Ok::<HostRule, Failure>(
                rules[i],
            ),
        forall|i: int| 0 <= i < rules.len() ==> backends.contains((#[trigger] rules[i]).to),
    decreases values.len(),
{
    if values.len() > 0 {
        let first = rules_of(values.drop_last(), backends)->Ok_0;
        law_rules(values.drop_last(), backends, first);
        let last = rule_of(values.last(), backends)->Ok_0;
        assert(rules == first.push(last));
        assert forall|i: int| 0 <= i < values.len() implies rule_of(#[trigger] values[i], backends) == Ok::<
            HostRule,
            Failure,
        >(rules[i]) by {
            if i < values.len() - 1 {
                assert(values.drop_last()[i] == values[i]);
            }
        }
        assert forall|i: int| 0 <= i < rules.len() implies backends.contains((#[trigger] rules[i]).to) by {
            if i < first.len() {
                assert(first[i] == rules[i]);
            } else {
                lemma_rule_target(values.last(), backends);
            }
        }
    }
}

/// The backend of a rule is one of those that it was read with.
proof fn lemma_rule_target(value: Json, backends: Seq<Backend>)
    requires
        rule_of(value, backends) is Ok,
    ensures
        backends.contains((rule_of(value, backends)->Ok_0).to),
{
    let entries = value->Object_0@;
    assert(host_rule_of(entries, backends) is Ok);
    let to = crate::document::member(entries, "to"@)->Text_0@;
    let i = choose|i: int| is_backend(backends, to, i);
    assert(backend_named(backends, to) == Some(backends[i]));
}

/// An accepted server has its own name, backends of different names, and rules that send their
/// requests to those backends.
pub proof fn law_server<A>(name: Seq<char>, value: Json, address: Result<A, Seq<char>>)
    requires
        server_of(name, value, address) is Ok,
    ensures
        ({
            let server = server_of(name, value, address)->Ok_0;
            &&& server.name == name
            &&& unique_backends(server.backends)
            &&& forall|i: int|
                0 <= i < server.rules.len() ==> server.backends.contains((#[trigger] server.rules[i]).to)
            &&& server.worker_count <= usize::MAX
        }),
{
    let server = server_of(name, value, address)->Ok_0;
    let entries = value->Object_0@;
    let backends = crate::document::member(entries, "backends"@)->Array_0@;
    let rules = crate::document::member(entries, "proxy_rules"@)->Array_0@;
    law_backends(backends, server.backends);
    law_rules(rules, server.backends, server.rules);
    let bits = crate::document::member(entries, "worker_count"@)->Number_0;
    lemma_whole_part(bits);
}

/// The accepted servers are those that the members of the document describe, in their order.
pub proof fn law_servers<A>(entries: Seq<(String, Json)>, addresses: Addresses<A>, servers: Seq<Server<A>>)
    requires
        servers_of(entries, addresses) == Ok::<Seq<Server<A>>, Failure>(servers),
    ensures
        servers.len() == entries.len(),
        forall|i: int|
            0 <= i < entries.len() ==> server_of(
                (#[trigger] entries[i]).0@,
                entries[i].1,
                address_by(entries[i].1, addresses),
            ) == Ok::<Server<A>, Failure>(servers[i]),
    decreases entries.len(),
{
    if entries.len() > 0 {
        let first = servers_of(entries.drop_last(), addresses)->Ok_0;
        law_servers(entries.drop_last(), addresses, first);
        let last = server_of(
            entries.last().0@,
            entries.last().1,
            address_by(entries.last().1, addresses),
        )->Ok_0;
        assert(servers == first.push(last));
        assert forall|i: int| 0 <= i < entries.len() implies server_of(
            (#[trigger] entries[i]).0@,
            entries[i].1,
            address_by(entries[i].1, addresses),
        ) == Ok::<Server<A>, Failure>(servers[i]) by {
            if i < entries.len() - 1 {
                assert(entries.drop_last()[i] == entries[i]);
            }
        }
    }
}

/// The whole part of a double is no less than zero.
proof fn lemma_whole_part(bits: u64)
    ensures
        whole_part(bits) >= 0,
{
    if scale(bits) >= 0 {
        lemma_pow2_pos(scale(bits) as nat);
        assert(significand(bits) * pow2(scale(bits) as nat) as int >= 0) by (nonlinear_arith)
            requires
                significand(bits) >= 0,
                pow2(scale(bits) as nat) > 0,
        ;
    } else {
        lemma_pow2_pos((-scale(bits)) as nat);
        vstd::arithmetic::div_mod::lemma_div_pos_is_pos(
            significand(bits),
            pow2((-scale(bits)) as nat) as int,
        );
    }
}

/// A double that is exactly a whole number within the limits is read as that number, unless it is
/// negative.
pub proof fn law_whole_number(bits: u64, number: nat, limit: nat, max: nat)
    requires
        has_size(bits, number),
        number <= limit,
        number <= max,
    ensures
        double_to_uint(bits, limit, max) == if bits < SIGN || number == 0 {
            Some(number)
        } else {
            None
        },
{
    if scale(bits) < 0 {
        let p = pow2((-scale(bits)) as nat);
        lemma_pow2_pos((-scale(bits)) as nat);
        vstd::arithmetic::mul::lemma_mul_inequality(number as int, limit as int, p as int);
        vstd::arithmetic::div_mod::lemma_div_by_multiple(number as int, p as int);
        if number > 0 {
            vstd::arithmetic::mul::lemma_mul_strictly_positive(number as int, p as int);
        } else {
            assert(number * p == 0) by (nonlinear_arith)
                requires
                    number == 0,
            ;
        }
    } else {
        let p = pow2(scale(bits) as nat);
        lemma_pow2_pos(scale(bits) as nat);
        if significand(bits) > 0 {
            vstd::arithmetic::mul::lemma_mul_strictly_positive(significand(bits), p as int);
        } else {
            assert(significand(bits) * p == 0) by (nonlinear_arith)
                requires
                    significand(bits) == 0,
            ;
        }
    }
}

/// A worker count that is written as a whole number, with or without a fraction of zeros or a power
/// of ten, is that number, and is refused where it is negative.
pub proof fn law_worker_count(positive: bool, mantissa: u64, exponent: i16, bits: u64, number: nat)
    requires
        whole_number(mantissa, exponent) == Some(number),
        number <= usize::MAX,
        converts_to(NumberParts::Decimal { positive, mantissa, exponent }, bits),
    ensures
        double_to_uint(bits, worker_limit(), usize::MAX as nat) == if positive || number == 0 {
            Some(number)
        } else {
            None
        },
{
    law_whole_number(bits, number, worker_limit(), usize::MAX as nat);
}

/// A port that is written as a whole number up to 65535 is that number.
pub proof fn law_port(mantissa: u64, exponent: i16, bits: u64, number: nat)
    requires
        whole_number(mantissa, exponent) == Some(number),
        number <= 65535,
        converts_to(NumberParts::Decimal { positive: true, mantissa, exponent }, bits),
    ensures
        port_of(Json::Number(bits)) == Some(number as u16),
{
    law_whole_number(bits, number, 65535, 65535);
}

/// A request that a rule has rewritten is for the host that the rule's backend expects, is still
/// one that can be sent, and has kept every other field and its start line.
pub proof fn law_rewritten(rule: HostRule, head: Head)
    requires
        valid_head(MessageKind::Request, head),
    ensures
        ({
            let rewritten = with_host(head, host_header(rule.to));
            &&& is_for_host(rewritten, host_header(rule.to))
            &&& valid_head(MessageKind::Request, rewritten)
            &&& rewritten.start == head.start
            &&& forall|name: Seq<char>|
                name != "Host"@ ==> #[trigger] lookup(rewritten.fields, name) == lookup(head.fields, name)
        }),
{
    law_put(head.fields, "Host"@, host_header(rule.to));
    assert(has_field(with_host(head, host_header(rule.to)).fields, "Host"@));
}

} // verus!

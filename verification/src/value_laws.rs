//! What holds of doubles, of documents, and of the rules that rewrite requests.
use crate::config::{host_header, HostRule, ProxyRule, ProxyRuleConfig};
use crate::document::{
    converts_to, countable_fractions, describes, member, quoting, text_of, tiny_fraction_at, whole_number, Json,
    JsonTree, NumberParts,
};
use crate::double::{biased_exponent, double_to_uint, is_special, scale, significand, FRACTIONS, SIGN};
use crate::errors::HttpProxyErr;
use crate::headers::Fields;
use crate::http::Head;
use crate::rewrite::{first_rule, is_first_rule, is_for_host, rewrite_head, with_host, ProxtRule, ProxyRuleHost};
use crate::stream::{ByRules, PacketRewrite, Unchanged};
use crate::word_laws::{law_field_at_end, law_field_in_place};
use vstd::arithmetic::div_mod::{
    lemma_div_by_multiple, lemma_div_pos_is_pos, lemma_fundamental_div_mod, lemma_mod_multiples_basic,
};
use vstd::arithmetic::power::{lemma_pow_positive, pow};
use vstd::arithmetic::power2::*;
use vstd::prelude::*;

verus! {

/// The parts of a double: a sign, eleven bits of exponent, and 52 bits of fraction.
pub proof fn law_double_parts(negative: bool, exponent: int, fraction: int, bits: u64)
    requires
        0 <= exponent < 2048,
        0 <= fraction < 0x10_0000_0000_0000,
        bits == (if negative {
            0x8000_0000_0000_0000int
        } else {
            0
        }) + exponent * 0x10_0000_0000_0000 + fraction,
    ensures
        negative <==> bits >= SIGN,
        is_special(bits) <==> exponent == 2047,
        exponent > 0 ==> significand(bits) == 0x10_0000_0000_0000 + fraction && scale(bits) == exponent - 1075,
        exponent == 0 ==> significand(bits) == fraction && scale(bits) == -1074,
{
    assert(FRACTIONS == 0x10_0000_0000_0000 && SIGN == 0x8000_0000_0000_0000);
    assert(bits as int / 0x10_0000_0000_0000 == exponent + if negative {
        2048int
    } else {
        0
    });
    assert(bits as int % 0x10_0000_0000_0000 == fraction);
    assert(biased_exponent(bits) == exponent);
}

/// A double with a fraction is read as the whole number below it, if it is not negative and no more
/// than the limit.
pub proof fn law_truncated(bits: u64, n: nat, limit: nat, max: nat)
    requires
        !is_special(bits),
        scale(bits) < 0,
        n * pow2((-scale(bits)) as nat) <= significand(bits) < (n + 1) * pow2((-scale(bits)) as nat),
    ensures
        double_to_uint(bits, limit, max) == if bits >= SIGN && significand(bits) > 0 {
            None
        } else if significand(bits) > limit * pow2((-scale(bits)) as nat) {
            None
        } else if n <= max {
            Some(n)
        } else {
            Some(max)
        },
{
    let p = pow2((-scale(bits)) as nat) as int;
    lemma_pow2_pos((-scale(bits)) as nat);
    let s = significand(bits);
    assert(s / p == n) by (nonlinear_arith)
        requires
            p > 0,
            n * p <= s < (n + 1) * p,
    ;
    assert(s >= 0);
}

/// A double without a fraction is read as the number that it is, if it is not negative and no more
/// than the limit. What is no number is not read.
pub proof fn law_large_double(bits: u64, limit: nat, max: nat)
    ensures
        is_special(bits) ==> double_to_uint(bits, limit, max) is None,
        !is_special(bits) && scale(bits) >= 0 ==> {
            let size = significand(bits) * pow2(scale(bits) as nat);
            double_to_uint(bits, limit, max) == if bits >= SIGN && significand(bits) > 0 {
                None
            } else if size > limit {
                None
            } else if size <= max {
                Some(size as nat)
            } else {
                Some(max)
            }
        },
{
    assert(significand(bits) >= 0);
}

/// The whole number that a mantissa is with its power of ten, up to two to the power of 53: so many
/// tens times the mantissa, or what that many tens times is the mantissa.
pub proof fn law_scaled(mantissa: u64, exponent: i16, n: nat)
    requires
        -22 <= exponent <= 22,
    ensures
        exponent >= 0 ==> (whole_number(mantissa, exponent) == Some(n) <==> n == mantissa * pow(10, exponent as nat)
            && n <= 0x20_0000_0000_0000),
        exponent < 0 ==> (whole_number(mantissa, exponent) == Some(n) <==> n * pow(10, (-exponent) as nat) == mantissa
            && mantissa <= 0x20_0000_0000_0000),
{
    if exponent < 0 {
        let p = pow(10, (-exponent) as nat);
        let m = mantissa as int;
        lemma_pow_positive(10, (-exponent) as nat);
        lemma_fundamental_div_mod(m, p);
        if n * p == m {
            lemma_div_by_multiple(n as int, p);
            lemma_mod_multiples_basic(n as int, p);
        }
        if m % p == 0 && m / p == n {
            assert(p * n == n * p) by (nonlinear_arith);
        }
        assert(m / p >= 0) by {
            lemma_div_pos_is_pos(m, p);
        }
    } else {
        let p = pow(10, exponent as nat);
        lemma_pow_positive(10, exponent as nat);
        assert(mantissa * p >= 0) by (nonlinear_arith)
            requires
                p > 0,
        ;
    }
}

/// A number that is scaled by at most 22 powers of ten is converted to one double only, with its
/// sign, and to the number itself where that is a whole one up to two to the power of 53. What is no
/// number stays none.
pub proof fn law_converted(positive: bool, mantissa: u64, exponent: i16, bits: u64, other: u64, n: nat)
    ensures
        converts_to(NumberParts::Nan, bits) <==> is_special(bits),
        converts_to(NumberParts::Decimal { positive, mantissa, exponent }, bits) && -22 <= exponent <= 22 ==> {
            &&& !is_special(bits)
            &&& positive <==> bits < SIGN
            &&& converts_to(NumberParts::Decimal { positive, mantissa, exponent }, other) ==> bits == other
            &&& whole_number(mantissa, exponent) == Some(n) ==> {
                &&& scale(bits) >= 0 ==> significand(bits) * pow2(scale(bits) as nat) == n
                &&& scale(bits) < 0 ==> significand(bits) == n * pow2((-scale(bits)) as nat)
            }
        },
{
}

/// What a tree describes is of its kind, and has its parts.
pub proof fn law_describes(tree: JsonTree, document: Json)
    requires
        describes(tree, document),
    ensures
        match tree {
            JsonTree::Null => document is Null,
            JsonTree::Text(text) => document matches Json::Text(s) && s@ == text,
            JsonTree::Number(number) => document matches Json::Number(bits) && converts_to(number, bits),
            JsonTree::Boolean(b) => document == Json::Boolean(b),
            JsonTree::Array(items) => document matches Json::Array(values) && {
                &&& values@.len() == items.len()
                &&& forall|i: int| 0 <= i < items.len() ==> describes(items[i], #[trigger] values@[i])
            },
            JsonTree::Object(items) => document matches Json::Object(entries) && {
                &&& entries@.len() == items.len()
                &&& forall|i: int|
                    0 <= i < items.len() ==> (#[trigger] entries@[i]).0@ == items[i].0 && describes(
                        items[i].1,
                        entries@[i].1,
                    )
            },
        },
{
    match (tree, document) {
        (JsonTree::Array(items), Json::Array(values)) => {
            assert forall|i: int| 0 <= i < items.len() implies describes(items[i], #[trigger] values@[i]) by {
                assert(describes(items[i], values@[i]));
            }
        },
        (JsonTree::Object(items), Json::Object(entries)) => {
            assert forall|i: int| 0 <= i < items.len() implies (#[trigger] entries@[i]).0@ == items[i].0
                && describes(items[i].1, entries@[i].1) by {
                assert(items[i].0 == entries@[i].0@);
            }
        },
        _ => {},
    }
}

/// The value under a key is that of the first entry with the key.
pub proof fn law_member(
    before: Seq<(String, Json)>,
    entry: (String, Json),
    after: Seq<(String, Json)>,
    key: Seq<char>,
)
    requires
        forall|i: int| 0 <= i < before.len() ==> (#[trigger] before[i]).0@ != key,
    ensures
        entry.0@ == key ==> member(before + seq![entry] + after, key) == entry.1,
        member(before, key) is Null,
    decreases before.len(),
{
    let all = before + seq![entry] + after;
    if before.len() > 0 {
        assert(all[0] == before[0]);
        assert(all.drop_first() =~= before.drop_first() + seq![entry] + after);
        assert forall|i: int| 0 <= i < before.drop_first().len() implies (#[trigger] before.drop_first()[i]).0@
            != key by {
            assert(before.drop_first()[i] == before[i + 1]);
        }
        law_member(before.drop_first(), entry, after, key);
    } else {
        assert(all[0] == entry);
    }
}

/// A value is a text or has none.
pub proof fn law_text_of(value: Json, text: Seq<char>)
    ensures
        text_of(value) == Some(text) <==> (value matches Json::Text(s) && s@ == text),
{
}

/// Fractions can be counted where no point stands outside of strings, or where what follows it is
/// not a long run of digits that opens with a long run of zeros.
pub proof fn law_countable(s: Seq<char>)
    requires
        forall|p: int|
            0 < p < s.len() && #[trigger] s[p] == '.' && s[p - 1] == '0' ==> {
                ||| quoting(s.take(p)) !is Outside
                ||| p >= 2 && '0' <= s[p - 2] <= '9'
                ||| p + 32769 >= s.len()
                ||| exists|j: int| p < j <= p + 32769 && !('0' <= #[trigger] s[j] <= '9')
                ||| exists|j: int| p < j <= p + 32749 && #[trigger] s[j] != '0'
            },
    ensures
        countable_fractions(s),
{
    assert forall|p: int| !#[trigger] tiny_fraction_at(s, p) by {
        if tiny_fraction_at(s, p) {
            assert(s[p] == '.');
            if exists|j: int| p < j <= p + 32769 && !('0' <= #[trigger] s[j] <= '9') {
                let j = choose|j: int| p < j <= p + 32769 && !('0' <= #[trigger] s[j] <= '9');
                assert(crate::decimal::is_digit(s[j]));
            }
            if exists|j: int| p < j <= p + 32749 && #[trigger] s[j] != '0' {
                let j = choose|j: int| p < j <= p + 32749 && #[trigger] s[j] != '0';
                assert(s[j] == '0');
            }
        }
    }
}

/// Fractions cannot be counted where, outside of strings, a point behind a lone zero is followed by a
/// long run of digits that opens with a long run of zeros.
pub proof fn law_uncountable(s: Seq<char>, p: int)
    requires
        0 < p,
        p + 32769 < s.len(),
        s[p] == '.',
        s[p - 1] == '0',
        p >= 2 ==> !('0' <= s[p - 2] <= '9'),
        quoting(s.take(p)) is Outside,
        forall|j: int| p < j <= p + 32769 ==> '0' <= #[trigger] s[j] <= '9',
        forall|j: int| p < j <= p + 32749 ==> #[trigger] s[j] == '0',
    ensures
        !countable_fractions(s),
{
    assert forall|j: int| p < j <= p + 32769 implies crate::decimal::is_digit(#[trigger] s[j]) by {}
    assert(tiny_fraction_at(s, p));
}

/// A string opens and ends with a quote, but not with one that stands behind a backslash in it.
pub proof fn law_quoting(s: Seq<char>, c: char)
    ensures
        quoting(Seq::empty()) is Outside,
        quoting(s) is Outside ==> (quoting(s.push(c)) is Inside <==> c == '"') && quoting(s.push(c)) !is Escaped,
        quoting(s) is Inside ==> (quoting(s.push(c)) is Outside <==> c == '"') && (quoting(s.push(c)) is Escaped
            <==> c == '\\'),
        quoting(s) is Escaped ==> quoting(s.push(c)) is Inside,
{
    assert(s.push(c).drop_last() =~= s);
}

/// A request is for the host that its host field says, and for none without one. Another host takes
/// the place of that field's value, or is added at the end, and nothing else changes.
pub proof fn law_host(before: Fields, host: Seq<char>, after: Fields, other: Seq<char>, head: Head)
    requires
        forall|i: int| 0 <= i < before.len() ==> (#[trigger] before[i]).0 != "Host"@,
        forall|i: int| 0 <= i < after.len() ==> (#[trigger] after[i]).0 != "Host"@,
        head.fields == before + seq![("Host"@, host)] + after,
    ensures
        is_for_host(head, other) <==> other == host,
        with_host(head, other) == (Head {
            start: head.start,
            fields: before + seq![("Host"@, other)] + after,
        }),
        !is_for_host(Head { start: head.start, fields: before }, other),
        with_host(Head { start: head.start, fields: before }, other) == (Head {
            start: head.start,
            fields: before.push(("Host"@, other)),
        }),
{
    law_field_in_place(before, "Host"@, host, after, other);
    law_field_at_end(before, "Host"@, other);
}

/// A rule from one host to another picks the requests for the one, and sends them on for the other.
pub proof fn law_host_rule(rule: ProxyRuleHost, head: Head)
    ensures
        rule.applies(head) <==> is_for_host(head, rule.from@),
        rule.rewritten(head) == with_host(head, rule.to@),
{
}

/// A rule from a host to a backend picks the requests for the host, and sends them to the backend
/// under its host header.
pub proof fn law_backend_rule(rule: ProxyRuleConfig, head: Head)
    ensures
        rule.applies(head) <==> is_for_host(head, rule@.from),
        rule.rewritten(head) == with_host(head, host_header(rule@.to)),
        rule.target() == rule@.to,
{
}

/// A rule of the configuration, before it is shared, is the same rule.
pub proof fn law_unshared_rule(rule: crate::config::ProxyRuleHost, head: Head)
    ensures
        rule.applies(head) <==> is_for_host(head, rule.from@),
        rule.rewritten(head) == with_host(head, host_header(rule.to@)),
        rule.target() == rule.to@,
        rule@ == (HostRule { from: rule.from@, to: rule.to@ }),
{
}

/// A shared rule is the same rule.
pub proof fn law_shared_rule<R: ProxtRule>(rule: std::sync::Arc<R>, head: Head)
    ensures
        rule.applies(head) <==> (*rule).applies(head),
        rule.rewritten(head) == (*rule).rewritten(head),
{
}

/// The rule that is used is the first that picks the request; where none does, the request is
/// refused.
pub proof fn law_first_rule<R: ProxtRule>(rules: &Vec<R>, head: Head, i: int)
    ensures
        0 <= i < rules@.len() && rules@[i].applies(head) && (forall|j: int|
            0 <= j < i ==> !(#[trigger] rules@[j]).applies(head)) ==> {
            &&& first_rule(rules@, head) == Some(i)
            &&& rewrite_head(rules@, head) == Ok::<(Head, int), HttpProxyErr>((rules@[i].rewritten(head), i))
            &&& (ByRules { rules }).outcome(head) == Ok::<(Head, usize), HttpProxyErr>(
                (rules@[i].rewritten(head), i as usize),
            )
        },
        (forall|j: int| 0 <= j < rules@.len() ==> !(#[trigger] rules@[j]).applies(head)) ==> {
            &&& first_rule(rules@, head) is None
            &&& rewrite_head(rules@, head) == Err::<(Head, int), HttpProxyErr>(HttpProxyErr::ProxyRuleNotFound)
            &&& (ByRules { rules }).outcome(head) == Err::<(Head, usize), HttpProxyErr>(
                HttpProxyErr::ProxyRuleNotFound,
            )
        },
{
    if 0 <= i < rules@.len() && rules@[i].applies(head) && (forall|j: int|
        0 <= j < i ==> !(#[trigger] rules@[j]).applies(head)) {
        assert(is_first_rule(rules@, head, i));
        assert forall|k: int| is_first_rule(rules@, head, k) implies k == i by {
            if k < i {
                assert(!rules@[k].applies(head));
            } else if i < k {
                assert(!rules@[i].applies(head));
            }
        }
    }
}

/// A response is not rewritten.
pub proof fn law_unchanged(head: Head)
    ensures
        (Unchanged {  }).outcome(head) == Ok::<(Head, ()), HttpProxyErr>((head, ())),
{
}

} // verus!

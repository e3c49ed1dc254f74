//! What holds of searching, splitting, trimming, numbers in text, and header fields.
use crate::decimal::{
    decimal_text, decimal_value, is_digit, lemma_decimal_round_trip, unsigned, unsigned_up_to,
};
use crate::headers::{has_field, lemma_named, lookup, named_at, put, unique_names, Fields};
use crate::http_laws::{lemma_absent, lemma_split_joined};
use crate::search::{first_at, index_of, lemma_index_is, lemma_index_of, occurs_at};
use crate::text::{is_white_space, split_space, trimmed};
use vstd::prelude::*;

verus! {

/// What stands behind something that does not hold it earlier is found right there.
pub proof fn law_found<T>(before: Seq<T>, target: Seq<T>, after: Seq<T>)
    requires
        forall|j: int|
            0 <= j < before.len() ==> #[trigger] (before + target + after).subrange(j, j + target.len()) != target,
    ensures
        index_of(before + target + after, target) == Some(before.len() as int),
{
    let s = before + target + after;
    let n = before.len() as int;
    assert(s.subrange(n, n + target.len()) =~= target);
    assert(first_at(s, target, n)) by {
        assert forall|j: int| 0 <= j < n implies !#[trigger] occurs_at(s, target, j) by {
            assert(s.subrange(j, j + target.len()) != target);
        }
    }
    lemma_index_is(s, target, n);
}

/// Nothing is found if and only if no part is what is looked for.
pub proof fn law_not_found<T>(s: Seq<T>, target: Seq<T>)
    ensures
        index_of(s, target) is None <==> forall|j: int|
            0 <= j && j + target.len() <= s.len() ==> #[trigger] s.subrange(j, j + target.len()) != target,
{
    lemma_index_of(s, target);
    if index_of(s, target) is None {
        assert forall|j: int| 0 <= j && j + target.len() <= s.len() implies #[trigger] s.subrange(
            j,
            j + target.len(),
        ) != target by {
            assert(!occurs_at(s, target, j));
        }
    } else {
        let i = index_of(s, target)->0;
        assert(s.subrange(i, i + target.len()) == target);
    }
}

/// A word ends at the first space, and what follows the space is the rest; a word alone has none.
pub proof fn law_split(word: Seq<char>, rest: Seq<char>)
    requires
        forall|i: int| 0 <= i < word.len() ==> #[trigger] word[i] != ' ',
    ensures
        split_space(word + seq![' '] + rest) == (word, Some(rest)),
        split_space(word) == (word, None::<Seq<char>>),
{
    lemma_absent(word, ' ');
    lemma_split_joined(word, rest);
}

/// White space is what stands at these code points: the blanks, the ends of lines and of pages, and
/// the spaces of other widths. A letter, a digit or another character that can be seen is none.
pub proof fn law_white_space(c: char)
    ensures
        is_white_space(c) <==> {
            let code = c as u32;
            ||| 9 <= code <= 13
            ||| code == 32
            ||| code == 133
            ||| code == 160
            ||| code == 5760
            ||| 8192 <= code <= 8202
            ||| code == 8232
            ||| code == 8233
            ||| code == 8239
            ||| code == 8287
            ||| code == 12288
        },
        33 <= c as u32 <= 126 ==> !is_white_space(c),
{
}

/// White space in front of a text that does not open with any is dropped, and nothing else.
pub proof fn law_trimmed(space: Seq<char>, rest: Seq<char>)
    requires
        forall|i: int| 0 <= i < space.len() ==> is_white_space(#[trigger] space[i]),
        rest.len() == 0 || !is_white_space(rest[0]),
    ensures
        trimmed(space + rest) == rest,
    decreases space.len(),
{
    let s = space + rest;
    if space.len() > 0 {
        assert(s[0] == space[0]);
        assert(s.drop_first() =~= space.drop_first() + rest);
        assert forall|i: int| 0 <= i < space.drop_first().len() implies is_white_space(
            #[trigger] space.drop_first()[i],
        ) by {
            assert(space.drop_first()[i] == space[i + 1]);
        }
        law_trimmed(space.drop_first(), rest);
    } else {
        assert(s =~= rest);
    }
}

/// A digit alone is a number.
pub proof fn law_digit(c: char)
    requires
        '0' <= c <= '9',
    ensures
        unsigned(seq![c]) == Some((c as u32 - 48) as nat),
{
    let s = seq![c];
    assert(is_digit(s[0]));
    assert(s.drop_last() =~= Seq::<char>::empty());
    reveal_with_fuel(decimal_value, 2);
}

/// A digit behind a number makes it ten times as much, and the digit more.
pub proof fn law_longer_number(s: Seq<char>, n: nat, c: char)
    requires
        unsigned(s) == Some(n),
        '0' <= c <= '9',
    ensures
        unsigned(s.push(c)) == Some((10 * n + (c as u32 - 48)) as nat),
{
    let t = s.push(c);
    let signed = s.len() > 0 && s[0] == '+';
    let digits = if signed {
        s.skip(1)
    } else {
        s
    };
    let longer = if signed {
        t.skip(1)
    } else {
        t
    };
    assert(longer =~= digits.push(c));
    assert(longer.drop_last() =~= digits);
    assert forall|i: int| 0 <= i < longer.len() implies is_digit(#[trigger] longer[i]) by {
        if i < digits.len() {
            assert(longer[i] == digits[i]);
        }
    }
}

/// A text is a number if and only if it has a digit, and nothing else but one plus sign in front.
pub proof fn law_is_number(s: Seq<char>)
    ensures
        unsigned(s) is Some <==> {
            &&& exists|i: int| 0 <= i < s.len() && '0' <= #[trigger] s[i] <= '9'
            &&& forall|i: int| 0 <= i < s.len() ==> '0' <= #[trigger] s[i] <= '9' || (i == 0 && s[i] == '+')
        },
{
    let signed = s.len() > 0 && s[0] == '+';
    let digits = if signed {
        s.skip(1)
    } else {
        s
    };
    if unsigned(s) is Some {
        assert(is_digit(digits[0]));
        assert('0' <= s[if signed { 1 } else { 0int }] <= '9');
        assert forall|i: int| 0 <= i < s.len() implies '0' <= #[trigger] s[i] <= '9' || (i == 0 && s[i] == '+') by {
            if signed && i > 0 {
                assert(is_digit(digits[i - 1]));
            } else if !signed {
                assert(is_digit(digits[i]));
            }
        }
    }
    let right = {
        &&& exists|i: int| 0 <= i < s.len() && '0' <= #[trigger] s[i] <= '9'
        &&& forall|i: int| 0 <= i < s.len() ==> '0' <= #[trigger] s[i] <= '9' || (i == 0 && s[i] == '+')
    };
    if right {
        let k = choose|i: int| 0 <= i < s.len() && '0' <= #[trigger] s[i] <= '9';
        assert(digits.len() > 0);
        assert forall|i: int| 0 <= i < digits.len() implies is_digit(#[trigger] digits[i]) by {
            let at = if signed {
                i + 1
            } else {
                i
            };
            assert('0' <= s[at] <= '9' || (at == 0 && s[at] == '+'));
        }
    }
}

/// A plus sign in front changes nothing, unless there is one already.
pub proof fn law_plus_sign(s: Seq<char>)
    requires
        s.len() == 0 || s[0] != '+',
    ensures
        unsigned(seq!['+'] + s) == unsigned(s),
{
    assert((seq!['+'] + s).skip(1) =~= s);
}

/// A limit admits the numbers up to it, as they are.
pub proof fn law_limit(s: Seq<char>, max: nat, n: nat)
    ensures
        unsigned_up_to(s, max) == Some(n) <==> unsigned(s) == Some(n) && n <= max,
{
}

/// A number is written in digits, without a zero in front unless it is the only digit, so that it
/// is read back.
pub proof fn law_number_text(n: nat)
    ensures
        unsigned(decimal_text(n)) == Some(n),
        decimal_text(n).len() > 0,
        forall|i: int| 0 <= i < decimal_text(n).len() ==> '0' <= #[trigger] decimal_text(n)[i] <= '9',
        decimal_text(n)[0] == '0' ==> decimal_text(n).len() == 1,
{
    lemma_decimal_round_trip(n);
    lemma_first_digit(n);
    let t = decimal_text(n);
    assert forall|i: int| 0 <= i < t.len() implies '0' <= #[trigger] t[i] <= '9' by {
        assert(is_digit(t[i]));
    }
}

proof fn lemma_first_digit(n: nat)
    ensures
        decimal_text(n).len() > 0,
        n > 0 ==> decimal_text(n)[0] != '0',
        n == 0 ==> decimal_text(n).len() == 1,
    decreases n,
{
    if n >= 10 {
        lemma_first_digit(n / 10);
    }
}

/// The value of a field is looked up by its name, and set in its place.
pub proof fn law_field_in_place(
    before: Fields,
    name: Seq<char>,
    value: Seq<char>,
    after: Fields,
    other: Seq<char>,
)
    requires
        forall|i: int| 0 <= i < before.len() ==> (#[trigger] before[i]).0 != name,
        forall|i: int| 0 <= i < after.len() ==> (#[trigger] after[i]).0 != name,
    ensures
        lookup(before + seq![(name, value)] + after, name) == Some(value),
        put(before + seq![(name, value)] + after, name, other) == before + seq![(name, other)] + after,
        has_field(before + seq![(name, value)] + after, name),
{
    let all = before + seq![(name, value)] + after;
    let at = before.len() as int;
    assert(named_at(all, name, at));
    assert forall|k: int| named_at(all, name, k) implies k == at by {
        if k < at {
            assert(before[k].0 != name);
        } else if k > at {
            assert(after[k - at - 1].0 != name);
        }
    }
    assert(all.update(at, (name, other)) =~= before + seq![(name, other)] + after);
}

/// A name that no field bears has no value, and is set at the end.
pub proof fn law_field_at_end(fields: Fields, name: Seq<char>, value: Seq<char>)
    requires
        forall|i: int| 0 <= i < fields.len() ==> (#[trigger] fields[i]).0 != name,
    ensures
        lookup(fields, name) is None,
        !has_field(fields, name),
        put(fields, name, value) == fields.push((name, value)),
{
    assert forall|k: int| !#[trigger] named_at(fields, name, k) by {
        if named_at(fields, name, k) {
            assert(fields[k].0 != name);
        }
    }
}

/// Where names are unique, no two fields share one, and each field's value is looked up by its name,
/// wherever it stands.
pub proof fn law_unique_names(fields: Fields)
    requires
        unique_names(fields),
    ensures
        forall|i: int, j: int|
            0 <= i < fields.len() && 0 <= j < fields.len() && (#[trigger] fields[i]).0 == (#[trigger] fields[j]).0
                ==> i == j,
        forall|i: int| 0 <= i < fields.len() ==> lookup(fields, (#[trigger] fields[i]).0) == Some(fields[i].1),
{
    assert forall|i: int| 0 <= i < fields.len() implies lookup(fields, (#[trigger] fields[i]).0) == Some(
        fields[i].1,
    ) by {
        assert(named_at(fields, fields[i].0, i));
        lemma_named(fields, fields[i].0, i);
    }
}

} // verus!

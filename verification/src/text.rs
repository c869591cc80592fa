//! How values are shown in log messages.
use crate::radix::{decimal, law_decimal_round_trip, to_decimal};
use vstd::prelude::*;
use vstd::string::*;

verus! {

/// How Rust's debug formatting shows the string `s`: in double quotes, with
/// special characters escaped.
pub uninterp spec fn quoted(s: Seq<char>) -> Seq<char>;

/// Formats a `str` with `{:?}`, through its implementation of
/// `core::fmt::Debug`. The result is named `quoted`.
#[verifier::external_body]
fn debug_str(s: &str) -> (text: String)
    ensures
        text@ == quoted(s@),
{
    format!("{:?}", s)
}

/// The items one after the other, with a comma and a space between them.
pub open spec fn joined(items: Seq<Seq<char>>) -> Seq<char>
    decreases items.len(),
{
    if items.len() == 0 {
        Seq::empty()
    } else if items.len() == 1 {
        items[0]
    } else {
        joined(items.drop_last()) + ", "@ + items.last()
    }
}

/// A list: its items in square brackets.
pub open spec fn listed(items: Seq<Seq<char>>) -> Seq<char> {
    "["@ + joined(items) + "]"@
}

/// The views of some strings.
pub open spec fn texts(items: Seq<String>) -> Seq<Seq<char>> {
    Seq::new(items.len(), |i: int| items[i]@)
}

/// A list of numbers.
pub open spec fn numbers_text(numbers: Seq<u64>) -> Seq<char> {
    listed(Seq::new(numbers.len(), |i: int| decimal(numbers[i] as nat)))
}

pub(crate) fn show_str(s: &str) -> (text: String)
    ensures
        text@ == quoted(s@),
{
    debug_str(s)
}

pub(crate) fn show_list(items: &Vec<String>) -> (text: String)
    ensures
        text@ == listed(texts(items@)),
{
    let mut text = "[".to_owned();
    let ghost open = text@;
    let ghost all = texts(items@);
    for i in 0..items.len()
        invariant
            all == texts(items@),
            text@ == open + joined(all.take(i as int)),
    {
        let ghost before = text@;
        if i > 0 {
            text.append(", ");
        }
        text.append(items[i].as_str());
        proof {
            assert(all.take(i as int + 1).drop_last() =~= all.take(i as int));
            assert(all.take(i as int + 1).last() == items[i as int]@);
            if i == 0 {
                assert(before =~= open);
                assert(text@ =~= open + joined(all.take(1)));
            } else {
                assert(text@ =~= open + joined(all.take(i as int + 1)));
            }
        }
    }
    assert(all.take(items.len() as int) =~= all);
    text.append("]");
    text
}

pub(crate) fn show_numbers(numbers: &Vec<u64>) -> (text: String)
    ensures
        text@ == numbers_text(numbers@),
{
    let mut items: Vec<String> = Vec::new();
    for i in 0..numbers.len()
        invariant
            items.len() == i,
            forall|j: int| 0 <= j < i ==> #[trigger] items[j]@ == decimal(numbers[j] as nat),
    {
        items.push(to_decimal(numbers[i] as u128));
    }
    assert(texts(items@) =~= Seq::new(numbers@.len(), |i: int| decimal(numbers@[i] as nat)));
    show_list(&items)
}

pub(crate) fn show_bool(b: bool) -> (text: &'static str)
    ensures
        text@ == bool_text(b),
{
    if b {
        "true"
    } else {
        "false"
    }
}

pub open spec fn bool_text(b: bool) -> Seq<char> {
    if b {
        "true"@
    } else {
        "false"@
    }
}

/// A text from which one can tell where each item of a list starts: two lists of
/// items, one after the other, are joined like their items.
pub proof fn law_lists_are_joined(first: Seq<Seq<char>>, second: Seq<Seq<char>>)
    ensures
        second.len() == 0 ==> joined(first + second) == joined(first),
        first.len() == 0 ==> joined(first + second) == joined(second),
        first.len() > 0 && second.len() > 0 ==> joined(first + second) == joined(first) + ", "@
            + joined(second),
        first.len() == 1 ==> joined(first) == first[0],
        listed(first).len() == joined(first).len() + 2,
        listed(first).first() == '[',
        listed(first).last() == ']',
        listed(first).subrange(1, listed(first).len() - 1) == joined(first),
    decreases second.len(),
{
    reveal_strlit("[");
    reveal_strlit("]");
    assert(listed(first).subrange(1, listed(first).len() - 1) =~= joined(first));
    if second.len() == 0 {
        assert(first + second =~= first);
    } else if first.len() == 0 {
        assert(first + second =~= second);
    } else {
        let fewer = second.drop_last();
        law_lists_are_joined(first, fewer);
        assert((first + second).drop_last() =~= first + fewer);
        assert((first + second).last() == second.last());
        if second.len() > 1 {
            assert(joined(first) + ", "@ + joined(fewer) + ", "@ + second.last() =~= joined(first)
                + ", "@ + (joined(fewer) + ", "@ + second.last()));
        } else {
            assert(first + fewer =~= first);
        }
    }
}

/// What comes before the first comma of a text is determined by the text.
pub(crate) proof fn lemma_before_the_comma(
    a: Seq<char>,
    rest_a: Seq<char>,
    b: Seq<char>,
    rest_b: Seq<char>,
)
    requires
        a + rest_a == b + rest_b,
        !a.contains(','),
        !b.contains(','),
        rest_a.len() > 0 ==> rest_a[0] == ',',
        rest_b.len() > 0 ==> rest_b[0] == ',',
    ensures
        a == b,
        rest_a == rest_b,
{
    let text = a + rest_a;
    if a.len() < b.len() {
        assert(text[a.len() as int] == b[a.len() as int]);
        assert(text[a.len() as int] == rest_a[0]);
    }
    if b.len() < a.len() {
        assert(text[b.len() as int] == a[b.len() as int]);
        assert((b + rest_b)[b.len() as int] == rest_b[0]);
    }
    assert(a =~= text.take(a.len() as int));
    assert(b =~= text.take(b.len() as int));
    assert(rest_a =~= text.skip(a.len() as int));
    assert(rest_b =~= text.skip(b.len() as int));
}

proof fn lemma_rest_of_list(items: Seq<Seq<char>>)
    requires
        items.len() > 0,
    ensures
        joined(items) == items[0] + if items.len() > 1 {
            ", "@ + joined(items.drop_first())
        } else {
            Seq::empty()
        },
{
    let first = seq![items[0]];
    let rest = items.drop_first();
    law_lists_are_joined(first, rest);
    assert(items =~= first + rest);
    if items.len() > 1 {
        assert(items[0] + ", "@ + joined(rest) =~= items[0] + (", "@ + joined(rest)));
    } else {
        assert(items[0] + Seq::<char>::empty() =~= items[0]);
    }
}

proof fn lemma_numbers_told_apart(a: Seq<u64>, b: Seq<u64>)
    requires
        joined(Seq::new(a.len(), |i: int| decimal(a[i] as nat))) == joined(
            Seq::new(b.len(), |i: int| decimal(b[i] as nat)),
        ),
    ensures
        a == b,
    decreases a.len(),
{
    let items_a = Seq::new(a.len(), |i: int| decimal(a[i] as nat));
    let items_b = Seq::new(b.len(), |i: int| decimal(b[i] as nat));
    reveal_strlit(", ");
    if a.len() > 0 {
        lemma_rest_of_list(items_a);
        law_decimal_round_trip(a[0] as nat);
        assert(items_a[0].len() > 0 && joined(items_a).len() > 0);
    }
    if b.len() > 0 {
        lemma_rest_of_list(items_b);
        law_decimal_round_trip(b[0] as nat);
        assert(items_b[0].len() > 0 && joined(items_b).len() > 0);
    }
    if a.len() == 0 || b.len() == 0 {
        assert(a =~= b);
    } else {
        let rest_a = if a.len() > 1 {
            ", "@ + joined(items_a.drop_first())
        } else {
            Seq::empty()
        };
        let rest_b = if b.len() > 1 {
            ", "@ + joined(items_b.drop_first())
        } else {
            Seq::empty()
        };
        lemma_before_the_comma(items_a[0], rest_a, items_b[0], rest_b);
        if a.len() > 1 && b.len() > 1 {
            let more_a = joined(items_a.drop_first());
            let more_b = joined(items_b.drop_first());
            assert(more_a =~= rest_a.skip(2));
            assert(more_b =~= rest_b.skip(2));
            assert(items_a.drop_first() =~= Seq::new(
                a.drop_first().len(),
                |i: int| decimal(a.drop_first()[i] as nat),
            ));
            assert(items_b.drop_first() =~= Seq::new(
                b.drop_first().len(),
                |i: int| decimal(b.drop_first()[i] as nat),
            ));
            lemma_numbers_told_apart(a.drop_first(), b.drop_first());
            assert(a =~= seq![a[0]] + a.drop_first());
            assert(b =~= seq![b[0]] + b.drop_first());
        } else {
            assert(a =~= b);
        }
    }
}

/// Different lists of numbers are shown differently.
pub proof fn law_number_lists_are_told_apart(a: Seq<u64>, b: Seq<u64>)
    ensures
        numbers_text(a) == numbers_text(b) ==> a == b,
{
    if numbers_text(a) == numbers_text(b) {
        let items_a = Seq::new(a.len(), |i: int| decimal(a[i] as nat));
        let items_b = Seq::new(b.len(), |i: int| decimal(b[i] as nat));
        law_lists_are_joined(items_a, Seq::empty());
        law_lists_are_joined(items_b, Seq::empty());
        lemma_numbers_told_apart(a, b);
    }
}

} // verus!

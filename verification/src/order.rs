//! Lexicographic orders on sequences, and the orders on characters and text built from them.

use vstd::prelude::*;
use vstd::relations::*;

verus! {

/// Whether `a` comes before `b` when the two are read from the left and the first place in
/// which they differ decides by `lt`; a sequence comes after each of its proper prefixes.
pub open spec fn lex_lt<T>(lt: spec_fn(T, T) -> bool, a: Seq<T>, b: Seq<T>) -> bool
    decreases a.len(),
{
    if a.len() == 0 {
        b.len() > 0
    } else if b.len() == 0 {
        false
    } else if a.first() == b.first() {
        lex_lt(lt, a.drop_first(), b.drop_first())
    } else {
        lt(a.first(), b.first())
    }
}

/// The lexicographic order that `lt` gives on sequences, as a relation.
pub open spec fn lex_order<T>(lt: spec_fn(T, T) -> bool) -> spec_fn(Seq<T>, Seq<T>) -> bool {
    |a: Seq<T>, b: Seq<T>| lex_lt(lt, a, b)
}

/// No sequence comes before itself.
pub proof fn lemma_lex_irreflexive<T>(lt: spec_fn(T, T) -> bool, a: Seq<T>)
    ensures
        !lex_lt(lt, a, a),
    decreases a.len(),
{
    if a.len() > 0 {
        lemma_lex_irreflexive(lt, a.drop_first());
    }
}

/// The lexicographic order is transitive where the order of the elements is strict and total.
pub proof fn lemma_lex_transitive<T>(lt: spec_fn(T, T) -> bool, a: Seq<T>, b: Seq<T>, c: Seq<T>)
    requires
        strict_total_ordering(lt),
        lex_lt(lt, a, b),
        lex_lt(lt, b, c),
    ensures
        lex_lt(lt, a, c),
    decreases a.len(),
{
    if a.len() > 0 && a.first() == b.first() && b.first() == c.first() {
        lemma_lex_transitive(lt, a.drop_first(), b.drop_first(), c.drop_first());
    }
}

/// Of two different sequences one comes before the other, where the order of the elements is
/// strict and total.
pub proof fn lemma_lex_connected<T>(lt: spec_fn(T, T) -> bool, a: Seq<T>, b: Seq<T>)
    requires
        strict_total_ordering(lt),
        a != b,
    ensures
        lex_lt(lt, a, b) || lex_lt(lt, b, a),
    decreases a.len(),
{
    if a.len() > 0 && b.len() > 0 {
        if a.first() == b.first() {
            if a.drop_first() == b.drop_first() {
                assert(a =~= seq![a.first()] + a.drop_first());
                assert(b =~= seq![b.first()] + b.drop_first());
            }
            lemma_lex_connected(lt, a.drop_first(), b.drop_first());
        }
    } else if a.len() == 0 && b.len() == 0 {
        assert(a =~= b);
    }
}

/// The lexicographic order of a strict total order is a strict total order.
pub proof fn lemma_lex_strict_total<T>(lt: spec_fn(T, T) -> bool)
    requires
        strict_total_ordering(lt),
    ensures
        strict_total_ordering(lex_order(lt)),
{
    let r = lex_order(lt);
    assert forall|a: Seq<T>| #[trigger] r(a, a) == false by {
        lemma_lex_irreflexive(lt, a);
    }
    assert forall|a: Seq<T>, b: Seq<T>, c: Seq<T>| #[trigger] r(a, b) && #[trigger] r(b, c)
        implies r(a, c) by {
        lemma_lex_transitive(lt, a, b, c);
    }
    assert forall|a: Seq<T>, b: Seq<T>| #[trigger] r(a, b) && #[trigger] r(b, a) implies a == b by {
        lemma_lex_transitive(lt, a, b, a);
        lemma_lex_irreflexive(lt, a);
    }
    assert forall|a: Seq<T>, b: Seq<T>| a != b implies #[trigger] r(a, b) || #[trigger] r(b, a) by {
        lemma_lex_connected(lt, a, b);
    }
}

/// Two sequences that agree before `i` are ordered as what follows `i` in them.
pub proof fn lemma_lex_skip<T>(lt: spec_fn(T, T) -> bool, a: Seq<T>, b: Seq<T>, i: int)
    requires
        0 <= i <= a.len(),
        i <= b.len(),
        a.take(i) == b.take(i),
    ensures
        lex_lt(lt, a, b) == lex_lt(lt, a.skip(i), b.skip(i)),
    decreases i,
{
    if i == 0 {
        assert(a.skip(0) == a);
        assert(b.skip(0) == b);
    } else {
        assert(a.first() == a.take(i)[0]);
        assert(a.drop_first().take(i - 1) == a.take(i).drop_first());
        assert(b.drop_first().take(i - 1) == b.take(i).drop_first());
        lemma_lex_skip(lt, a.drop_first(), b.drop_first(), i - 1);
        assert(a.drop_first().skip(i - 1) == a.skip(i));
        assert(b.drop_first().skip(i - 1) == b.skip(i));
    }
}

/// How one value stands to another in an order.
#[derive(Debug, Clone, Copy, PartialEq, Eq, Structural)]
pub enum Precedence {
    Before,
    Same,
    After,
}

/// How `a` stands to `b` in the order `lt`.
pub open spec fn precedence<T>(lt: spec_fn(T, T) -> bool, a: T, b: T) -> Precedence {
    if a == b {
        Precedence::Same
    } else if lt(a, b) {
        Precedence::Before
    } else {
        Precedence::After
    }
}

/// The order of the characters: that of their code points.
pub open spec fn char_lt(a: char, b: char) -> bool {
    (a as int) < (b as int)
}

/// The order of the characters, as a relation.
pub open spec fn char_order() -> spec_fn(char, char) -> bool {
    |a: char, b: char| char_lt(a, b)
}

/// The order of text: lexicographic, by code points.
pub open spec fn text_lt(a: Seq<char>, b: Seq<char>) -> bool {
    lex_lt(char_order(), a, b)
}

/// The order of text, as a relation.
pub open spec fn text_order() -> spec_fn(Seq<char>, Seq<char>) -> bool {
    |a: Seq<char>, b: Seq<char>| text_lt(a, b)
}

/// The order of optional values: the absent one first, then the present ones by `lt`.
pub open spec fn option_lt<T>(lt: spec_fn(T, T) -> bool, a: Option<T>, b: Option<T>) -> bool {
    match (a, b) {
        (None, Some(_)) => true,
        (Some(x), Some(y)) => lt(x, y),
        _ => false,
    }
}

/// The order that `lt` gives on optional values, as a relation.
pub open spec fn option_order<T>(lt: spec_fn(T, T) -> bool) -> spec_fn(
    Option<T>,
    Option<T>,
) -> bool {
    |a: Option<T>, b: Option<T>| option_lt(lt, a, b)
}

/// The order of optional values is strict and total where that of the values is.
pub proof fn lemma_option_order<T>(lt: spec_fn(T, T) -> bool)
    requires
        strict_total_ordering(lt),
    ensures
        strict_total_ordering(option_order(lt)),
{
}

/// The order of the natural numbers, as a relation.
pub open spec fn number_order() -> spec_fn(nat, nat) -> bool {
    |a: nat, b: nat| a < b
}

/// The order of the natural numbers is strict and total.
pub proof fn lemma_number_order()
    ensures
        strict_total_ordering(number_order()),
{
}

/// The order of the characters is strict and total.
pub proof fn lemma_char_order()
    ensures
        strict_total_ordering(char_order()),
{
}

/// The order of text is strict and total.
pub proof fn lemma_text_order()
    ensures
        strict_total_ordering(text_order()),
{
    lemma_char_order();
    lemma_lex_strict_total(char_order());
    assert(text_order() == lex_order(char_order()));
}

} // verus!

//! Character sequences: the text operations behind the wire format and the summaries.

use vstd::prelude::*;

verus! {

/// Whether `c` has the Unicode property `White_Space`.
pub open spec fn is_whitespace(c: char) -> bool {
    let u = c as u32;
    ||| 0x09 <= u <= 0x0D
    ||| u == 0x20
    ||| u == 0x85
    ||| u == 0xA0
    ||| u == 0x1680
    ||| 0x2000 <= u <= 0x200A
    ||| u == 0x2028
    ||| u == 0x2029
    ||| u == 0x202F
    ||| u == 0x205F
    ||| u == 0x3000
}

/// `s` without its leading whitespace.
pub open spec fn trimmed_start(s: Seq<char>) -> Seq<char>
    decreases s.len(),
{
    if s.len() > 0 && is_whitespace(s.first()) {
        trimmed_start(s.drop_first())
    } else {
        s
    }
}

/// `s` without its trailing whitespace.
pub open spec fn trimmed_end(s: Seq<char>) -> Seq<char>
    decreases s.len(),
{
    if s.len() > 0 && is_whitespace(s.last()) {
        trimmed_end(s.drop_last())
    } else {
        s
    }
}

/// `s` without its leading and trailing whitespace.
pub open spec fn trimmed(s: Seq<char>) -> Seq<char> {
    trimmed_end(trimmed_start(s))
}

/// Tests `c` for the Unicode property `White_Space`.
pub fn whitespace(c: char) -> (r: bool)
    ensures
        r == is_whitespace(c),
{
    let u: u32 = c as u32;
    (0x09 <= u && u <= 0x0D) || u == 0x20 || u == 0x85 || u == 0xA0 || u == 0x1680 || (0x2000 <= u
        && u <= 0x200A) || u == 0x2028 || u == 0x2029 || u == 0x202F || u == 0x205F || u == 0x3000
}

/// The characters of `s`, in order.
pub fn chars_of(s: &str) -> (chars: Vec<char>)
    ensures
        chars@ == s@,
{
    let mut chars: Vec<char> = Vec::new();
    for c in it: s.chars()
        invariant
            it.seq() == s@,
            chars@ == it.history(),
    {
        chars.push(c);
    }
    chars
}

/// Everything before `from` in `s` is whitespace, and `from` is where that stops.
proof fn lemma_trimmed_start(s: Seq<char>, from: int)
    requires
        0 <= from <= s.len(),
        forall|i: int| 0 <= i < from ==> is_whitespace(#[trigger] s[i]),
        from < s.len() ==> !is_whitespace(s[from]),
    ensures
        trimmed_start(s) == s.skip(from),
    decreases from,
{
    if from > 0 {
        lemma_trimmed_start(s.drop_first(), from - 1);
    }
}

/// Everything from `to` on in `s` is whitespace, and `to` is where that starts.
proof fn lemma_trimmed_end(s: Seq<char>, to: int)
    requires
        0 <= to <= s.len(),
        forall|i: int| to <= i < s.len() ==> is_whitespace(#[trigger] s[i]),
        to > 0 ==> !is_whitespace(s[to - 1]),
    ensures
        trimmed_end(s) == s.take(to),
    decreases s.len() - to,
{
    if to < s.len() {
        lemma_trimmed_end(s.drop_last(), to);
    }
}

/// `s` without its leading and trailing whitespace.
pub fn trim(s: &str) -> (r: &str)
    ensures
        r@ == trimmed(s@),
{
    let chars = chars_of(s);
    let mut from: usize = 0;
    while from < chars.len() && whitespace(chars[from])
        invariant
            from <= chars.len(),
            forall|i: int| 0 <= i < from ==> is_whitespace(#[trigger] chars@[i]),
        decreases chars.len() - from,
    {
        from = from + 1;
    }
    let mut to: usize = chars.len();
    while to > from && whitespace(chars[to - 1])
        invariant
            from <= to <= chars.len(),
            forall|i: int| to <= i < chars.len() ==> is_whitespace(#[trigger] chars@[i]),
        decreases to,
    {
        to = to - 1;
    }
    proof {
        lemma_trimmed_start(s@, from as int);
        lemma_trimmed_end(s@.skip(from as int), to - from);
    }
    s.substring_char(from, to)
}

/// `String::push` appends `c` to the end of `s`.
pub assume_specification[ String::push ](s: &mut String, c: char)
    ensures
        final(s)@ == old(s)@.push(c),
;

/// `s` with every `from` replaced by `to`.
pub open spec fn replaced(s: Seq<char>, from: char, to: Seq<char>) -> Seq<char>
    decreases s.len(),
{
    if s.len() == 0 {
        s
    } else if s.last() == from {
        replaced(s.drop_last(), from, to) + to
    } else {
        replaced(s.drop_last(), from, to).push(s.last())
    }
}

/// Replacing in two texts put together is replacing in each of them.
pub proof fn lemma_replaced_concat(a: Seq<char>, b: Seq<char>, from: char, to: Seq<char>)
    ensures
        replaced(a + b, from, to) == replaced(a, from, to) + replaced(b, from, to),
    decreases b.len(),
{
    if b.len() > 0 {
        let init = b.drop_last();
        lemma_replaced_concat(a, init, from, to);
        assert((a + b).drop_last() == a + init);
        if b.last() == from {
            assert(replaced(a, from, to) + replaced(init, from, to) + to == replaced(a, from, to)
                + (replaced(init, from, to) + to));
        } else {
            assert((replaced(a, from, to) + replaced(init, from, to)).push(b.last())
                == replaced(a, from, to) + replaced(init, from, to).push(b.last()));
        }
    }
}

/// Replacing in a text of one character gives `to` for `from`, and the text itself for any
/// other character.
pub proof fn lemma_replaced_one(c: char, from: char, to: Seq<char>)
    ensures
        replaced(seq![c], from, to) == if c == from {
            to
        } else {
            seq![c]
        },
{
    let one = seq![c];
    let none = Seq::<char>::empty();
    assert(one.len() == 1 && one.last() == c);
    assert(one.drop_last() =~= none);
    assert(replaced(none, from, to) == none);
    if c == from {
        assert(replaced(one, from, to) == none + to);
        assert(none + to =~= to);
    } else {
        assert(replaced(one, from, to) == none.push(c));
        assert(none.push(c) =~= one);
    }
}

/// Replacing a character that a text does not hold leaves the text as it is.
pub proof fn lemma_replaced_absent(s: Seq<char>, from: char, to: Seq<char>)
    requires
        !s.contains(from),
    ensures
        replaced(s, from, to) == s,
    decreases s.len(),
{
    if s.len() > 0 {
        lemma_replaced_absent(s.drop_last(), from, to);
    }
}

/// `s` with every `from` replaced by `to`.
pub fn replace(s: &str, from: char, to: &str) -> (r: String)
    ensures
        r@ == replaced(s@, from, to@),
{
    let mut r = String::new();
    let ghost mut done: Seq<char> = Seq::empty();
    for c in it: s.chars()
        invariant
            it.seq() == s@,
            it.history() == done,
            r@ == replaced(done, from, to@),
    {
        if c == from {
            r.append(to);
        } else {
            r.push(c);
        }
        proof {
            assert(done.push(c).drop_last() == done);
            done = done.push(c);
        }
    }
    assert(done == s@);
    r
}

/// The character of the decimal digit `d`.
pub open spec fn digit(d: nat) -> char
    recommends
        d < 10,
{
    (48 + d) as u8 as char
}

/// `n` in decimal, without leading zeros.
pub open spec fn decimal(n: nat) -> Seq<char>
    decreases n,
{
    if n < 10 {
        seq![digit(n)]
    } else {
        decimal(n / 10).push(digit(n % 10))
    }
}

/// `n` in decimal, without leading zeros.
pub fn decimal_string(n: usize) -> (r: String)
    ensures
        r@ == decimal(n as nat),
    decreases n,
{
    let mut r = if n < 10 {
        String::new()
    } else {
        decimal_string(n / 10)
    };
    let d: u8 = (n % 10) as u8;
    r.push((48u8 + d) as char);
    r
}

/// `s` without any leading repetition of `prefix`.
pub open spec fn without_leading(s: Seq<char>, prefix: Seq<char>) -> Seq<char>
    decreases s.len(),
{
    if prefix.len() > 0 && prefix.is_prefix_of(s) {
        without_leading(s.skip(prefix.len() as int), prefix)
    } else {
        s
    }
}

/// Whether `prefix` stands in `chars` at `at`.
fn stands_at(chars: &Vec<char>, at: usize, prefix: &Vec<char>) -> (r: bool)
    requires
        at <= chars.len(),
    ensures
        r == prefix@.is_prefix_of(chars@.skip(at as int)),
{
    if prefix.len() > chars.len() - at {
        return false;
    }
    let mut i: usize = 0;
    while i < prefix.len()
        invariant
            at + prefix.len() <= chars.len(),
            i <= prefix.len(),
            forall|j: int| 0 <= j < i ==> prefix@[j] == chars@[at + j],
        decreases prefix.len() - i,
    {
        if prefix[i] != chars[at + i] {
            return false;
        }
        i = i + 1;
    }
    true
}

/// `s` without any leading repetition of `prefix`.
pub fn strip_leading<'a>(s: &'a str, prefix: &str) -> (r: &'a str)
    ensures
        r@ == without_leading(s@, prefix@),
{
    let chars = chars_of(s);
    let prefix = chars_of(prefix);
    let mut from: usize = 0;
    assert(chars@.skip(0) == chars@);
    while prefix.len() > 0 && stands_at(&chars, from, &prefix)
        invariant
            from <= chars.len(),
            without_leading(chars@, prefix@) == without_leading(chars@.skip(from as int), prefix@),
        decreases chars.len() - from,
    {
        assert(chars@.skip(from as int).skip(prefix@.len() as int) == chars@.skip(
            from + prefix@.len(),
        ));
        from = from + prefix.len();
    }
    s.substring_char(from, chars.len())
}

} // verus!

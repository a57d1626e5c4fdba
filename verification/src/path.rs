//! Paths as lists of parts, and their order.

use crate::order::{
    char_order, lemma_lex_skip, lemma_lex_strict_total, lemma_text_order, lex_lt, lex_order,
    precedence, text_lt, text_order, Precedence,
};
use crate::views::{lemma_views_empty, lemma_views_push, views};
use vstd::prelude::*;
use vstd::relations::*;

verus! {

/// The pieces of `path`: what stands between its separators `/`. There is one more of them
/// than there are separators, and a piece may be empty.
pub open spec fn pieces(path: Seq<char>) -> Seq<Seq<char>>
    decreases path.len(),
{
    if path.len() == 0 {
        seq![Seq::empty()]
    } else {
        let before = pieces(path.drop_last());
        if path.last() == '/' {
            before.push(Seq::empty())
        } else {
            before.drop_last().push(before.last().push(path.last()))
        }
    }
}

/// A part of a path.
#[derive(Debug, Clone, PartialEq, Eq)]
pub enum Part {
    /// The root: the separator that a path begins with
    Root,
    /// The directory itself: a `.` that a path begins with
    Current,
    /// The directory above: `..`
    Parent,
    /// A name
    Name(Vec<char>),
}

/// What a part of a path holds.
pub enum PartView {
    Root,
    Current,
    Parent,
    Name(Seq<char>),
}

impl View for Part {
    type V = PartView;

    open spec fn view(&self) -> PartView {
        match self {
            Part::Root => PartView::Root,
            Part::Current => PartView::Current,
            Part::Parent => PartView::Parent,
            Part::Name(name) => PartView::Name(name@),
        }
    }
}

/// The parts that `pieces` give: nothing for an empty piece and for `.`, the directory
/// above for `..`, and a name for every other piece.
pub open spec fn named_parts(pieces: Seq<Seq<char>>) -> Seq<PartView>
    decreases pieces.len(),
{
    if pieces.len() == 0 {
        Seq::empty()
    } else {
        let before = named_parts(pieces.drop_last());
        let piece = pieces.last();
        if piece.len() == 0 || piece == seq!['.'] {
            before
        } else if piece == seq!['.', '.'] {
            before.push(PartView::Parent)
        } else {
            before.push(PartView::Name(piece))
        }
    }
}

/// Whether `path` begins with the separator.
pub open spec fn rooted(path: Seq<char>) -> bool {
    path.len() > 0 && path[0] == '/'
}

/// The part that `path` begins with, where it is no name: the root for a separator, the
/// directory itself for a first piece `.`.
pub open spec fn first_part(path: Seq<char>) -> Seq<PartView> {
    if rooted(path) {
        seq![PartView::Root]
    } else if pieces(path).first() == seq!['.'] {
        seq![PartView::Current]
    } else {
        Seq::empty()
    }
}

/// The parts of `path`, as a path is read where the separator is `/`: the root, if the path
/// begins with a separator; then the parts between the separators. Separators that follow
/// one another and one that ends the path give no part, nor does a `.`, but for the one
/// that a path without root begins with.
pub open spec fn parts(path: Seq<char>) -> Seq<PartView> {
    first_part(path) + named_parts(pieces(path))
}

/// Place of a part among the kinds of parts: the root, the directory itself, the directory
/// above, a name.
pub open spec fn part_rank(part: PartView) -> nat {
    match part {
        PartView::Root => 0,
        PartView::Current => 1,
        PartView::Parent => 2,
        PartView::Name(_) => 3,
    }
}

/// The order of parts: by kind, and two names as text.
pub open spec fn part_lt(a: PartView, b: PartView) -> bool {
    part_rank(a) < part_rank(b) || (a matches PartView::Name(left) && b matches PartView::Name(
        right,
    ) && text_lt(left, right))
}

/// The order of parts, as a relation.
pub open spec fn part_order() -> spec_fn(PartView, PartView) -> bool {
    |a: PartView, b: PartView| part_lt(a, b)
}

/// The order of paths: part by part; a path comes after the directories above it. Two
/// paths with the same parts, such as `a//b` and `a/./b/`, stand alike in it. It is the
/// order in which `std::path::Path` puts two paths where the separator is `/`.
pub open spec fn path_lt(a: Seq<char>, b: Seq<char>) -> bool {
    lex_lt(part_order(), parts(a), parts(b))
}

/// The order of paths, as a relation.
pub open spec fn path_order() -> spec_fn(Seq<char>, Seq<char>) -> bool {
    |a: Seq<char>, b: Seq<char>| path_lt(a, b)
}

/// The order of parts is strict and total.
pub proof fn lemma_part_order()
    ensures
        strict_total_ordering(part_order()),
{
    lemma_text_order();
    let r = part_order();
    let t = text_order();
    assert forall|a: PartView| #[trigger] r(a, a) == false by {
        if a is Name {
            assert(t(a->0, a->0) == false);
        }
    }
    assert forall|a: PartView, b: PartView, c: PartView| #[trigger] r(a, b) && #[trigger] r(
        b,
        c,
    ) implies r(a, c) by {
        if a is Name && b is Name && c is Name {
            assert(t(a->0, b->0) && t(b->0, c->0));
            assert(t(a->0, c->0));
        }
    }
    assert forall|a: PartView, b: PartView| #[trigger] r(a, b) && #[trigger] r(b, a) implies a
        == b by {
        if a is Name && b is Name {
            assert(t(a->0, b->0) && t(b->0, a->0));
        }
    }
    assert forall|a: PartView, b: PartView| a != b implies #[trigger] r(a, b) || #[trigger] r(
        b,
        a,
    ) by {
        if a is Name && b is Name {
            assert(a->0 != b->0);
            assert(t(a->0, b->0) || t(b->0, a->0));
        }
    }
}

/// The order of the lists of parts is strict and total: two paths stand alike in the order
/// of paths only if their parts are the same.
pub proof fn lemma_parts_order()
    ensures
        strict_total_ordering(lex_order(part_order())),
{
    lemma_part_order();
    lemma_lex_strict_total(part_order());
}

/// The order of paths is a strict order, and it is transitive also over paths that stand
/// alike: it is the order of their parts.
pub proof fn lemma_path_order(a: Seq<char>, b: Seq<char>, c: Seq<char>)
    ensures
        !path_lt(a, a),
        path_lt(a, b) ==> !path_lt(b, a) && parts(a) != parts(b),
        path_lt(a, b) && path_lt(b, c) ==> path_lt(a, c),
        parts(a) != parts(b) ==> path_lt(a, b) || path_lt(b, a),
        path_lt(a, b) && parts(b) == parts(c) ==> path_lt(a, c),
        parts(a) == parts(b) && path_lt(b, c) ==> path_lt(a, c),
{
    lemma_parts_order();
    let r = lex_order(part_order());
    assert(r(parts(a), parts(a)) == false);
    assert(r(parts(a), parts(b)) == path_lt(a, b));
    assert(r(parts(b), parts(a)) == path_lt(b, a));
    assert(r(parts(b), parts(c)) == path_lt(b, c));
    assert(r(parts(a), parts(c)) == path_lt(a, c));
    if path_lt(a, b) && path_lt(b, a) {
        assert(parts(a) == parts(b));
    }
    if path_lt(a, b) && path_lt(b, c) {
        assert(r(parts(a), parts(b)) && r(parts(b), parts(c)));
    }
    if parts(a) != parts(b) {
        assert(r(parts(a), parts(b)) || r(parts(b), parts(a)));
    }
}

/// A path has a first piece. It is empty where the path is empty or begins with a
/// separator, and it is the whole path where the path has no separator.
pub proof fn lemma_first_piece(path: Seq<char>)
    ensures
        pieces(path).len() >= 1,
        pieces(path).first().len() == 0 <==> (path.len() == 0 || path[0] == '/'),
        pieces(path).len() == 1 ==> pieces(path).first() == path,
    decreases path.len(),
{
    if path.len() > 0 {
        let init = path.drop_last();
        let before = pieces(init);
        lemma_first_piece(init);
        if path.last() == '/' {
            assert(pieces(path).first() == before.first());
            if init.len() > 0 {
                assert(path[0] == init[0]);
            }
        } else if before.len() == 1 {
            assert(pieces(path).first() == before.first().push(path.last()));
            assert(init.push(path.last()) == path);
            assert(before.first() == init);
            if init.len() > 0 {
                assert(path[0] == init[0]);
            }
        } else {
            assert(pieces(path).first() == before.first());
            assert(init.len() > 0);
            assert(path[0] == init[0]);
        }
    }
}

/// The pieces of `path`.
pub fn split_path(path: &str) -> (parts: Vec<Vec<char>>)
    ensures
        views(parts@) == pieces(path@),
{
    let mut parts: Vec<Vec<char>> = Vec::new();
    let mut current: Vec<char> = Vec::new();
    let ghost mut done: Seq<char> = Seq::empty();
    proof {
        lemma_views_empty::<Vec<char>>();
    }
    for c in it: path.chars()
        invariant
            it.seq() == path@,
            it.history() == done,
            views(parts@).push(current@) == pieces(done),
    {
        proof {
            assert(done.push(c).drop_last() == done);
        }
        if c == '/' {
            proof {
                lemma_views_push(parts@, current);
            }
            parts.push(current);
            current = Vec::new();
        } else {
            current.push(c);
        }
        proof {
            done = done.push(c);
        }
    }
    assert(done == path@);
    proof {
        lemma_views_push(parts@, current);
    }
    parts.push(current);
    parts
}

/// Whether `piece` is `.`.
fn is_dot(piece: &Vec<char>) -> (r: bool)
    ensures
        r == (piece@ == seq!['.']),
{
    let r = piece.len() == 1 && piece[0] == '.';
    proof {
        if r {
            assert(piece@ =~= seq!['.']);
        } else if piece.len() == 1 {
            assert(seq!['.'][0] == '.');
        }
    }
    r
}

/// Whether `piece` is `..`.
fn is_dot_dot(piece: &Vec<char>) -> (r: bool)
    ensures
        r == (piece@ == seq!['.', '.']),
{
    let r = piece.len() == 2 && piece[0] == '.' && piece[1] == '.';
    proof {
        if r {
            assert(piece@ =~= seq!['.', '.']);
        } else if piece.len() == 2 {
            assert(seq!['.', '.'][0] == '.' && seq!['.', '.'][1] == '.');
        }
    }
    r
}

/// The parts of `path`.
pub fn path_parts(path: &str) -> (r: Vec<Part>)
    ensures
        views(r@) == parts(path@),
{
    let pieces = split_path(path);
    let ghost all = views(pieces@);
    let mut r: Vec<Part> = Vec::new();
    proof {
        lemma_first_piece(path@);
        lemma_views_empty::<Part>();
        assert(all.first() == pieces[0]@);
    }
    if pieces.len() >= 2 && pieces[0].len() == 0 {
        proof {
            lemma_views_push(r@, Part::Root);
        }
        r.push(Part::Root);
    } else if is_dot(&pieces[0]) {
        proof {
            lemma_views_push(r@, Part::Current);
        }
        r.push(Part::Current);
    }
    assert(views(r@) =~= first_part(path@));
    let ghost mut done: Seq<Seq<char>> = Seq::empty();
    assert(views(r@) =~= first_part(path@) + named_parts(done));
    for piece in it: pieces
        invariant
            views(it.seq()) == all,
            all == crate::path::pieces(path@),
            done == all.take(it.index()),
            views(r@) == first_part(path@) + named_parts(done),
    {
        let ghost next = all.take(it.index() + 1);
        proof {
            assert(all[it.index()] == piece@);
            assert(next.drop_last() =~= done);
            assert(next.last() == piece@);
        }
        if piece.len() == 0 || is_dot(&piece) {
        } else if is_dot_dot(&piece) {
            proof {
                lemma_views_push(r@, Part::Parent);
                assert((first_part(path@) + named_parts(done)).push(PartView::Parent)
                    =~= first_part(path@) + named_parts(done).push(PartView::Parent));
            }
            r.push(Part::Parent);
        } else {
            let part = Part::Name(piece);
            proof {
                lemma_views_push(r@, part);
                assert((first_part(path@) + named_parts(done)).push(part@) =~= first_part(path@)
                    + named_parts(done).push(part@));
            }
            r.push(part);
        }
        proof {
            done = next;
        }
    }
    assert(done =~= all);
    r
}

/// How `a` stands to `b` in the order of text.
pub fn compare_texts(a: &Vec<char>, b: &Vec<char>) -> (r: Precedence)
    ensures
        r == precedence(text_order(), a@, b@),
{
    let mut i: usize = 0;
    while i < a.len() && i < b.len()
        invariant
            i <= a.len(),
            i <= b.len(),
            a@.take(i as int) == b@.take(i as int),
        decreases a.len() - i,
    {
        if a[i] != b[i] {
            proof {
                lemma_lex_skip(char_order(), a@, b@, i as int);
            }
            return if a[i] < b[i] {
                Precedence::Before
            } else {
                Precedence::After
            };
        }
        i = i + 1;
    }
    proof {
        lemma_lex_skip(char_order(), a@, b@, i as int);
        if a.len() == b.len() {
            assert(a@.take(i as int) == a@);
            assert(b@.take(i as int) == b@);
        }
    }
    if a.len() == b.len() {
        Precedence::Same
    } else if a.len() < b.len() {
        Precedence::Before
    } else {
        Precedence::After
    }
}

/// How the part `a` stands to the part `b` in the order of parts.
pub fn compare_parts(a: &Part, b: &Part) -> (r: Precedence)
    ensures
        r == precedence(part_order(), a@, b@),
{
    match (a, b) {
        (Part::Root, Part::Root) => Precedence::Same,
        (Part::Root, _) => Precedence::Before,
        (Part::Current, Part::Root) => Precedence::After,
        (Part::Current, Part::Current) => Precedence::Same,
        (Part::Current, _) => Precedence::Before,
        (Part::Parent, Part::Root) => Precedence::After,
        (Part::Parent, Part::Current) => Precedence::After,
        (Part::Parent, Part::Parent) => Precedence::Same,
        (Part::Parent, Part::Name(_)) => Precedence::Before,
        (Part::Name(left), Part::Name(right)) => compare_texts(left, right),
        (Part::Name(_), _) => Precedence::After,
    }
}

/// How the path `a` stands to the path `b` in the order of paths: alike where their parts
/// are the same.
pub fn compare_paths(a: &str, b: &str) -> (r: Precedence)
    ensures
        r == if parts(a@) == parts(b@) {
            Precedence::Same
        } else {
            precedence(path_order(), a@, b@)
        },
{
    let left = path_parts(a);
    let right = path_parts(b);
    let ghost x = views(left@);
    let ghost y = views(right@);
    let mut i: usize = 0;
    while i < left.len() && i < right.len()
        invariant
            i <= left.len(),
            i <= right.len(),
            x == views(left@),
            y == views(right@),
            x == parts(a@),
            y == parts(b@),
            x.take(i as int) == y.take(i as int),
        decreases left.len() - i,
    {
        let r = compare_parts(&left[i], &right[i]);
        match r {
            Precedence::Same => {
                proof {
                    assert(x[i as int] == y[i as int]);
                    assert(x.take(i + 1) =~= x.take(i as int).push(x[i as int]));
                    assert(y.take(i + 1) =~= y.take(i as int).push(y[i as int]));
                }
            },
            _ => {
                proof {
                    lemma_lex_skip(part_order(), x, y, i as int);
                    assert(x[i as int] != y[i as int]);
                    assert(x.skip(i as int).first() == x[i as int]);
                    assert(y.skip(i as int).first() == y[i as int]);
                    assert(a@ != b@);
                }
                return r;
            },
        }
        i = i + 1;
    }
    proof {
        lemma_lex_skip(part_order(), x, y, i as int);
        if left.len() == right.len() {
            assert(x.take(i as int) == x);
            assert(y.take(i as int) == y);
        } else {
            assert(x.len() != y.len());
            assert(a@ != b@);
        }
    }
    if left.len() == right.len() {
        Precedence::Same
    } else if left.len() < right.len() {
        Precedence::Before
    } else {
        Precedence::After
    }
}

} // verus!

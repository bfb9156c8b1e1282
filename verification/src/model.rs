use crate::parser::{ClassItem, Node};
use vstd::prelude::*;

verus! {

/// The mathematical value of a [`Node`]: the same tree, with sequences in place of vectors
/// and plain boxes in place of shared pointers.
pub enum Re {
    Empty,
    Epsilon,
    Literal(char),
    AnyChar,
    Concat(Seq<Re>),
    Alt(Box<Re>, Box<Re>),
    Star(Box<Re>),
    Plus(Box<Re>),
    Optional(Box<Re>),
    Repeat(Box<Re>, u32, Option<u32>),
    Group(Box<Re>),
    Class(bool, Seq<ClassItem>),
    StartAnchor,
    EndAnchor,
    ClassShorthand(char),
}

impl Node {
    pub open spec fn model(self) -> Re
        decreases self,
    {
        match self {
            Node::Empty => Re::Empty,
            Node::Epsilon => Re::Epsilon,
            Node::Literal(c) => Re::Literal(c),
            Node::AnyChar => Re::AnyChar,
            Node::Concat(v) => Re::Concat(models(v@)),
            Node::Alt(a, b) => Re::Alt(Box::new((*a).model()), Box::new((*b).model())),
            Node::Star(a) => Re::Star(Box::new((*a).model())),
            Node::Plus(a) => Re::Plus(Box::new((*a).model())),
            Node::Optional(a) => Re::Optional(Box::new((*a).model())),
            Node::Repeat { node, min, max } => Re::Repeat(Box::new((*node).model()), min, max),
            Node::Group(a) => Re::Group(Box::new((*a).model())),
            Node::Class { negated, items } => Re::Class(negated, items@),
            Node::StartAnchor => Re::StartAnchor,
            Node::EndAnchor => Re::EndAnchor,
            Node::ClassShorthand(k) => Re::ClassShorthand(k),
        }
    }
}

/// The models of a sequence of nodes, element by element.
pub open spec fn models(s: Seq<Node>) -> Seq<Re>
    decreases s,
{
    if s.len() == 0 {
        Seq::empty()
    } else {
        seq![s[0].model()] + models(s.subrange(1, s.len() as int))
    }
}

impl View for Node {
    type V = Re;

    open spec fn view(&self) -> Re {
        self.model()
    }
}

pub proof fn lemma_models(s: Seq<Node>)
    ensures
        models(s).len() == s.len(),
        forall|i: int| 0 <= i < s.len() ==> #[trigger] models(s)[i] == s[i].model(),
    decreases s.len(),
{
    if s.len() > 0 {
        lemma_models(s.subrange(1, s.len() as int));
    }
}

/// Two sequences of nodes with the same models element by element have the same models.
pub proof fn lemma_models_ext(s: Seq<Node>, t: Seq<Re>)
    requires
        s.len() == t.len(),
        forall|i: int| 0 <= i < s.len() ==> #[trigger] s[i].model() == t[i],
    ensures
        models(s) == t,
{
    lemma_models(s);
    assert(models(s) =~= t);
}

/// The models of two sequences laid end to end.
pub proof fn lemma_models_append(a: Seq<Node>, b: Seq<Node>)
    ensures
        models(a + b) == models(a) + models(b),
{
    lemma_models(a);
    lemma_models(b);
    lemma_models(a + b);
    assert(models(a + b) =~= models(a) + models(b));
}

/// The models of a part of a sequence are that part of its models.
pub proof fn lemma_models_subrange(a: Seq<Node>, i: int, j: int)
    requires
        0 <= i <= j <= a.len(),
    ensures
        models(a.subrange(i, j)) == models(a).subrange(i, j),
{
    lemma_models(a);
    lemma_models(a.subrange(i, j));
    assert(models(a.subrange(i, j)) =~= models(a).subrange(i, j));
}

/// A node and its model are of the same kind, for the kinds the simplifier looks at.
pub proof fn lemma_model_kind(n: &Node)
    ensures
        (n@ is Empty) <==> (*n is Empty),
        (n@ is Epsilon) <==> (*n is Epsilon),
        (n@ is Concat) <==> (*n is Concat),
{
}

/// Is the character an ASCII decimal digit?
pub open spec fn is_digit(c: char) -> bool {
    '0' <= c <= '9'
}

/// What `char::is_alphanumeric` answers for `c`.
pub uninterp spec fn char_is_alphanumeric(c: char) -> bool;

/// Is `c` a Unicode `White_Space` character, as `\s` reads it: tab through carriage
/// return, space, next line, no-break space, ogham space mark, the spaces from en quad to
/// hair space, line and paragraph separators, narrow no-break space, medium mathematical
/// space and ideographic space.
pub open spec fn is_white_space(c: char) -> bool {
    ||| '\u{9}' <= c <= '\u{d}'
    ||| c == ' '
    ||| c == '\u{85}'
    ||| c == '\u{a0}'
    ||| c == '\u{1680}'
    ||| '\u{2000}' <= c <= '\u{200a}'
    ||| c == '\u{2028}'
    ||| c == '\u{2029}'
    ||| c == '\u{202f}'
    ||| c == '\u{205f}'
    ||| c == '\u{3000}'
}

/// Does the shorthand class `\kind` (`\d`, `\w` or `\s`) hold `c`?
pub open spec fn shorthand_hit(kind: char, c: char) -> bool {
    if kind == 'd' {
        is_digit(c)
    } else if kind == 'w' {
        char_is_alphanumeric(c) || c == '_'
    } else if kind == 's' {
        is_white_space(c)
    } else {
        false
    }
}

/// Does one item of a character class hold `c`?
pub open spec fn item_hit(item: ClassItem, c: char) -> bool {
    match item {
        ClassItem::Char(l) => l == c,
        ClassItem::Range(lo, hi) => lo <= c && c <= hi,
        ClassItem::Shorthand(kind) => shorthand_hit(kind, c),
    }
}

/// Does some item of the class hold `c`?
pub open spec fn class_hit(items: Seq<ClassItem>, c: char) -> bool {
    exists|i: int| 0 <= i < items.len() && item_hit(#[trigger] items[i], c)
}

/// Does the tree match the empty string at a position that is the start of the input when
/// `at_start` holds and its end when `at_end` holds?
pub open spec fn nullable(r: Re, at_start: bool, at_end: bool) -> bool
    decreases r,
{
    match r {
        Re::Empty => false,
        Re::Epsilon => true,
        Re::Literal(_) => false,
        Re::AnyChar => false,
        Re::Class(_, _) => false,
        Re::ClassShorthand(_) => false,
        Re::Concat(parts) => all_nullable(parts, at_start, at_end),
        Re::Alt(a, b) => nullable(*a, at_start, at_end) || nullable(*b, at_start, at_end),
        Re::Star(_) => true,
        Re::Plus(a) => nullable(*a, at_start, at_end),
        Re::Optional(_) => true,
        Re::Repeat(a, min, _) => min == 0 || nullable(*a, at_start, at_end),
        Re::Group(a) => nullable(*a, at_start, at_end),
        Re::StartAnchor => at_start,
        Re::EndAnchor => at_end,
    }
}

/// Is every part nullable at that position?
pub open spec fn all_nullable(parts: Seq<Re>, at_start: bool, at_end: bool) -> bool
    decreases parts,
{
    if parts.len() == 0 {
        true
    } else {
        nullable(parts[0], at_start, at_end) && all_nullable(
            parts.subrange(1, parts.len() as int),
            at_start,
            at_end,
        )
    }
}

pub proof fn lemma_all_nullable(parts: Seq<Re>, at_start: bool, at_end: bool)
    ensures
        all_nullable(parts, at_start, at_end) <==> forall|i: int|
            0 <= i < parts.len() ==> #[trigger] nullable(parts[i], at_start, at_end),
    decreases parts.len(),
{
    if parts.len() > 0 {
        let rest = parts.subrange(1, parts.len() as int);
        lemma_all_nullable(rest, at_start, at_end);
        if all_nullable(parts, at_start, at_end) {
            assert forall|i: int| 0 <= i < parts.len() implies #[trigger] nullable(
                parts[i],
                at_start,
                at_end,
            ) by {
                if i > 0 {
                    assert(parts[i] == rest[i - 1]);
                }
            }
        }
        if forall|i: int| 0 <= i < parts.len() ==> #[trigger] nullable(parts[i], at_start, at_end) {
            assert forall|i: int| 0 <= i < rest.len() implies #[trigger] nullable(
                rest[i],
                at_start,
                at_end,
            ) by {
                assert(rest[i] == parts[i + 1]);
            }
            assert(nullable(parts[0], at_start, at_end));
        }
    }
}

/// One less, but not below zero.
pub open spec fn dec(n: u32) -> u32 {
    if n > 0 {
        (n - 1) as u32
    } else {
        0
    }
}

pub open spec fn dec_opt(n: Option<u32>) -> Option<u32> {
    match n {
        Some(m) => Some(dec(m)),
        None => None,
    }
}

/// What a part of a concatenation contributes to its flattened form.
pub open spec fn piece(r: Re) -> Seq<Re> {
    match r {
        Re::Epsilon => Seq::empty(),
        Re::Concat(inner) => inner,
        _ => seq![r],
    }
}

/// The parts of a concatenation with `ε` dropped and nested concatenations spliced in (one level).
pub open spec fn flatten(parts: Seq<Re>) -> Seq<Re>
    decreases parts.len(),
{
    if parts.len() == 0 {
        Seq::empty()
    } else {
        flatten(parts.drop_last()) + piece(parts.last())
    }
}

/// Does some part of the sequence equal `∅`?
pub open spec fn has_empty(parts: Seq<Re>) -> bool {
    exists|i: int| 0 <= i < parts.len() && #[trigger] parts[i] is Empty
}

/// The simplification applied to the alternations and concatenations that a derivative builds.
pub open spec fn simp(r: Re) -> Re {
    match r {
        Re::Alt(a, b) => {
            if *a is Empty {
                *b
            } else if *b is Empty {
                *a
            } else if *a == *b {
                *a
            } else {
                r
            }
        },
        Re::Concat(parts) => {
            if has_empty(parts) {
                Re::Empty
            } else {
                let flat = flatten(parts);
                if flat.len() == 0 {
                    Re::Epsilon
                } else if flat.len() == 1 {
                    flat[0]
                } else {
                    Re::Concat(flat)
                }
            }
        },
        _ => r,
    }
}

pub open spec fn alt(a: Re, b: Re) -> Re {
    Re::Alt(Box::new(a), Box::new(b))
}

pub open spec fn cat2(a: Re, b: Re) -> Re {
    Re::Concat(seq![a, b])
}

/// The Brzozowski derivative by `c` that the matcher computes, simplifications included;
/// `at_start` tells whether `c` is the first character of the input.
pub open spec fn deriv(r: Re, c: char, at_start: bool) -> Re
    decreases r,
{
    match r {
        Re::Empty => Re::Empty,
        Re::Epsilon => Re::Empty,
        Re::Literal(l) => if l == c {
            Re::Epsilon
        } else {
            Re::Empty
        },
        Re::AnyChar => Re::Epsilon,
        Re::Class(negated, items) => if class_hit(items, c) != negated {
            Re::Epsilon
        } else {
            Re::Empty
        },
        Re::ClassShorthand(kind) => if shorthand_hit(kind, c) {
            Re::Epsilon
        } else {
            Re::Empty
        },
        Re::Concat(parts) => deriv_concat(parts, c, at_start),
        Re::Alt(a, b) => simp(alt(deriv(*a, c, at_start), deriv(*b, c, at_start))),
        Re::Star(a) => simp(cat2(deriv(*a, c, at_start), Re::Star(a))),
        Re::Plus(a) => simp(cat2(deriv(*a, c, at_start), Re::Star(a))),
        Re::Optional(a) => deriv(*a, c, at_start),
        Re::Repeat(a, min, max) => if min == 0 && max == Some(0u32) {
            Re::Empty
        } else {
            simp(
                cat2(
                    deriv(*a, c, at_start),
                    Re::Repeat(a, next_min(*a, min, at_start), dec_opt(max)),
                ),
            )
        },
        Re::Group(a) => deriv(*a, c, at_start),
        Re::StartAnchor => Re::Empty,
        Re::EndAnchor => Re::Empty,
    }
}

/// How many more copies a repetition of `a` with minimum `min` needs once one copy has begun
/// to read: none if the copies before it may match the empty string there, else one less.
pub open spec fn next_min(a: Re, min: u32, at_start: bool) -> u32 {
    if nullable(a, at_start, false) {
        0
    } else {
        dec(min)
    }
}

/// The derivative of the concatenation of `parts`.
pub open spec fn deriv_concat(parts: Seq<Re>, c: char, at_start: bool) -> Re
    decreases parts,
{
    if parts.len() == 0 {
        Re::Empty
    } else if parts.len() == 1 {
        deriv(parts[0], c, at_start)
    } else {
        let rest = parts.subrange(1, parts.len() as int);
        let head = simp(cat2(deriv(parts[0], c, at_start), Re::Concat(rest)));
        if nullable(parts[0], at_start, false) {
            simp(alt(head, deriv_concat(rest, c, at_start)))
        } else {
            head
        }
    }
}

/// The tree after taking the derivative by each character of `s` in turn, the first of
/// them at the start of the input.
pub open spec fn deriv_all(r: Re, s: Seq<char>) -> Re
    decreases s.len(),
{
    if s.len() == 0 {
        r
    } else {
        deriv(deriv_all(r, s.drop_last()), s.last(), s.len() == 1)
    }
}

/// Once the derivatives reach `∅` they stay there.
pub proof fn lemma_stays_empty(r: Re, s: Seq<char>, k: int)
    requires
        0 <= k <= s.len(),
        deriv_all(r, s.take(k)) is Empty,
    ensures
        deriv_all(r, s) is Empty,
    decreases s.len(),
{
    if s.len() == k {
        assert(s.take(k) =~= s);
    } else {
        assert(s.drop_last().take(k) =~= s.take(k));
        lemma_stays_empty(r, s.drop_last(), k);
    }
}

/// What the matcher answers: the tree left after all the derivatives matches the empty
/// string at the end of the input.
pub open spec fn accepts(r: Re, s: Seq<char>) -> bool {
    nullable(deriv_all(r, s), s.len() == 0, true)
}

} // verus!

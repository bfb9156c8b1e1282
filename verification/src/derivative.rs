use crate::model::{
    accepts, char_is_alphanumeric, class_hit, deriv, deriv_all, deriv_concat, flatten,
    has_empty, is_white_space, item_hit, lemma_all_nullable, lemma_model_kind, lemma_models,
    lemma_models_append, lemma_models_ext, lemma_models_subrange, lemma_stays_empty, models,
    nullable, piece, shorthand_hit, simp, Re,
};
use crate::language::{
    bounds_ok, has_start, in_language, lemma_accepts, lemma_deriv, lemma_deriv_bounds,
    lemma_deriv_language, lemma_nullable, matches_at,
};
use crate::parser::{is_ascii_digit, ClassItem, Node};
use std::rc::Rc;
use vstd::prelude::*;

verus! {

/// Calls `char::is_alphanumeric`; the answer is named [`char_is_alphanumeric`].
#[verifier::external_body]
fn is_alphanumeric(c: char) -> (r: bool)
    ensures
        r == char_is_alphanumeric(c),
{
    c.is_alphanumeric()
}

/// Is `c` a white-space character, as `\s` reads it?
fn is_whitespace(c: char) -> (r: bool)
    ensures
        r == is_white_space(c),
{
    ('\u{9}' <= c && c <= '\u{d}') || c == ' ' || c == '\u{85}' || c == '\u{a0}' || c
        == '\u{1680}' || ('\u{2000}' <= c && c <= '\u{200a}') || c == '\u{2028}' || c
        == '\u{2029}' || c == '\u{202f}' || c == '\u{205f}' || c == '\u{3000}'
}

/// Calls `Rc::clone`, which hands out a second pointer to the same value.
#[verifier::external_body]
fn rc_clone(rc: &Rc<Node>) -> (r: Rc<Node>)
    ensures
        r == *rc,
{
    Rc::clone(rc)
}

impl Clone for Node {
    /// Copies the tree; shared children are shared again, not copied.
    fn clone(&self) -> (r: Node)
        ensures
            r@ == self@,
        decreases self,
    {
        match self {
            Node::Empty => Node::Empty,
            Node::Epsilon => Node::Epsilon,
            Node::Literal(c) => Node::Literal(*c),
            Node::AnyChar => Node::AnyChar,
            Node::Concat(nodes) => Node::Concat(clone_nodes(nodes.as_slice())),
            Node::Alt(a, b) => Node::Alt(rc_clone(a), rc_clone(b)),
            Node::Star(a) => Node::Star(rc_clone(a)),
            Node::Plus(a) => Node::Plus(rc_clone(a)),
            Node::Optional(a) => Node::Optional(rc_clone(a)),
            Node::Repeat { node, min, max } => Node::Repeat { node: rc_clone(node), min: *min, max: *max },
            Node::Group(a) => Node::Group(rc_clone(a)),
            Node::Class { negated, items } => {
                let copy = items.clone();
                assert(copy@ =~= items@);
                Node::Class { negated: *negated, items: copy }
            },
            Node::StartAnchor => Node::StartAnchor,
            Node::EndAnchor => Node::EndAnchor,
            Node::ClassShorthand(k) => Node::ClassShorthand(*k),
        }
    }
}

/// A copy of each node of the slice, in order.
fn clone_nodes(nodes: &[Node]) -> (r: Vec<Node>)
    ensures
        models(r@) == models(nodes@),
    decreases nodes@,
{
    let mut out: Vec<Node> = Vec::new();
    let mut i: usize = 0;
    while i < nodes.len()
        invariant
            i <= nodes@.len(),
            out@.len() == i,
            forall|j: int| 0 <= j < i ==> #[trigger] out@[j].model() == nodes@[j].model(),
        decreases nodes@.len() - i,
    {
        assert(decreases_to!(nodes@ => nodes@[i as int]));
        out.push(nodes[i].clone());
        i += 1;
    }
    proof {
        lemma_models(nodes@);
        lemma_models_ext(out@, models(nodes@));
    }
    out
}

/// Do the two trees have the same model?
fn same_node(a: &Node, b: &Node) -> (r: bool)
    ensures
        r == (a@ == b@),
    decreases a,
{
    match (a, b) {
        (Node::Empty, Node::Empty) => true,
        (Node::Epsilon, Node::Epsilon) => true,
        (Node::Literal(x), Node::Literal(y)) => *x == *y,
        (Node::AnyChar, Node::AnyChar) => true,
        (Node::Concat(xs), Node::Concat(ys)) => {
            proof {
                lemma_models(xs@);
                lemma_models(ys@);
            }
            if xs.len() != ys.len() {
                assert(models(xs@).len() != models(ys@).len());
                return false;
            }
            let mut i: usize = 0;
            while i < xs.len()
                invariant
                    i <= xs@.len(),
                    xs@.len() == ys@.len(),
                    models(xs@).len() == xs@.len(),
                    models(ys@).len() == ys@.len(),
                    forall|j: int| 0 <= j < xs@.len() ==> #[trigger] models(xs@)[j] == xs@[j].model(),
                    forall|j: int| 0 <= j < ys@.len() ==> #[trigger] models(ys@)[j] == ys@[j].model(),
                    forall|j: int| 0 <= j < i ==> #[trigger] xs@[j].model() == ys@[j].model(),
                    decreases_to!(*a => xs@),
                    a@ == Re::Concat(models(xs@)),
                    b@ == Re::Concat(models(ys@)),
                decreases xs@.len() - i,
            {
                assert(decreases_to!(xs@ => xs@[i as int]));
                if !same_node(&xs[i], &ys[i]) {
                    assert(models(xs@)[i as int] != models(ys@)[i as int]);
                    return false;
                }
                i += 1;
            }
            assert(models(xs@) =~= models(ys@));
            true
        },
        (Node::Alt(a1, a2), Node::Alt(b1, b2)) => same_node(a1, b1) && same_node(a2, b2),
        (Node::Star(x), Node::Star(y)) => same_node(x, y),
        (Node::Plus(x), Node::Plus(y)) => same_node(x, y),
        (Node::Optional(x), Node::Optional(y)) => same_node(x, y),
        (
            Node::Repeat { node: x, min: xmin, max: xmax },
            Node::Repeat { node: y, min: ymin, max: ymax },
        ) => *xmin == *ymin && *xmax == *ymax && same_node(x, y),
        (Node::Group(x), Node::Group(y)) => same_node(x, y),
        (Node::Class { negated: xn, items: xs }, Node::Class { negated: yn, items: ys }) => {
            if *xn != *yn || xs.len() != ys.len() {
                return false;
            }
            let mut i: usize = 0;
            while i < xs.len()
                invariant
                    i <= xs@.len(),
                    xs@.len() == ys@.len(),
                    forall|j: int| 0 <= j < i ==> #[trigger] xs@[j] == ys@[j],
                    a@ == Re::Class(*xn, xs@),
                    b@ == Re::Class(*yn, ys@),
                decreases xs@.len() - i,
            {
                if xs[i] != ys[i] {
                    assert(xs@[i as int] != ys@[i as int]);
                    return false;
                }
                i += 1;
            }
            assert(xs@ =~= ys@);
            true
        },
        (Node::StartAnchor, Node::StartAnchor) => true,
        (Node::EndAnchor, Node::EndAnchor) => true,
        (Node::ClassShorthand(x), Node::ClassShorthand(y)) => *x == *y,
        _ => false,
    }
}

/// checks if char satisfies the \d, \w, or \s shorthand class kind
fn shorthand_matches(kind: char, ch: char) -> (r: bool)
    ensures
        r == shorthand_hit(kind, ch),
{
    match kind {
        'd' => is_ascii_digit(ch),
        'w' => is_alphanumeric(ch) || ch == '_',
        's' => is_whitespace(ch),
        _ => false,
    }
}

/// Does a single character-class item match `ch`?
fn class_item_matches(item: &ClassItem, ch: char) -> (r: bool)
    ensures
        r == item_hit(*item, ch),
{
    match item {
        ClassItem::Char(literal) => *literal == ch,
        ClassItem::Range(start, end) => *start <= ch && ch <= *end,
        ClassItem::Shorthand(kind) => shorthand_matches(*kind, ch),
    }
}

/// Does some item of the class match `ch`?
fn class_matches(items: &Vec<ClassItem>, ch: char) -> (r: bool)
    ensures
        r == class_hit(items@, ch),
{
    let mut i: usize = 0;
    while i < items.len()
        invariant
            i <= items@.len(),
            forall|j: int| 0 <= j < i ==> !item_hit(#[trigger] items@[j], ch),
        decreases items@.len() - i,
    {
        if class_item_matches(&items[i], ch) {
            return true;
        }
        i += 1;
    }
    false
}

impl Node {
    /// Does the tree match the empty string at a position that is the start of the input
    /// when `at_start` holds and its end when `at_end` holds?
    pub fn nullable_at(&self, at_start: bool, at_end: bool) -> (r: bool)
        ensures
            r == nullable(self@, at_start, at_end),
            bounds_ok(self@) ==> (r == matches_at(self@, Seq::empty(), at_start, at_end)),
        decreases self,
    {
        proof {
            if bounds_ok(self@) {
                lemma_nullable(self@, at_start, at_end);
            }
        }
        match self {
            Node::Empty => false,
            Node::Epsilon => true,
            Node::Literal(_) => false,
            Node::AnyChar => false,
            Node::Class { .. } => false,
            Node::ClassShorthand(_) => false,
            Node::Concat(nodes) => {
                proof {
                    lemma_models(nodes@);
                    lemma_all_nullable(models(nodes@), at_start, at_end);
                }
                let mut i: usize = 0;
                while i < nodes.len()
                    invariant
                        i <= nodes@.len(),
                        models(nodes@).len() == nodes@.len(),
                        forall|j: int| 0 <= j < nodes@.len() ==> #[trigger] models(nodes@)[j] == nodes@[j].model(),
                        forall|j: int| 0 <= j < i ==> nullable(#[trigger] models(nodes@)[j], at_start, at_end),
                        decreases_to!(*self => nodes@),
                        self@ == Re::Concat(models(nodes@)),
                        bounds_ok(self@) ==> (nullable(self@, at_start, at_end) == matches_at(
                            self@,
                            Seq::empty(),
                            at_start,
                            at_end,
                        )),
                        crate::model::all_nullable(models(nodes@), at_start, at_end) <==> forall|j: int|
                            0 <= j < models(nodes@).len() ==> #[trigger] nullable(models(nodes@)[j], at_start, at_end),
                    decreases nodes@.len() - i,
                {
                    assert(decreases_to!(nodes@ => nodes@[i as int]));
                    if !nodes[i].nullable_at(at_start, at_end) {
                        assert(!nullable(models(nodes@)[i as int], at_start, at_end));
                        return false;
                    }
                    i += 1;
                }
                true
            },
            Node::Alt(a, b) => a.nullable_at(at_start, at_end) || b.nullable_at(at_start, at_end),
            Node::Star(_) => true,
            Node::Plus(a) => a.nullable_at(at_start, at_end),
            Node::Optional(_) => true,
            Node::Repeat { node, min, .. } => *min == 0 || node.nullable_at(at_start, at_end),
            Node::Group(inner) => inner.nullable_at(at_start, at_end),
            Node::StartAnchor => at_start,
            Node::EndAnchor => at_end,
        }
    }

    /// Does the tree, taken as a whole pattern, match the empty input?
    pub fn is_nullable(&self) -> (r: bool)
        ensures
            r == nullable(self@, true, true),
            bounds_ok(self@) ==> (r == in_language(self@, Seq::empty())),
    {
        self.nullable_at(true, true)
    }
}

/// Recovers an owned `Node` from an `Rc<Node>`, copying it only when it is shared.
fn unwrap_rc(rc: Rc<Node>) -> (r: Node)
    ensures
        r@ == rc@,
{
    match Rc::try_unwrap(rc) {
        Ok(node) => node,
        Err(shared) => (*shared).clone(),
    }
}

/// Simplifies an Alt or Concat node to prevent unbounded growth over a long input.
/// If it is another node type, it returns it unchanged.
fn simplify(node: Node) -> (r: Node)
    ensures
        r@ == simp(node@),
{
    let ghost orig = node@;
    match node {
        Node::Alt(a, b) => {
            proof {
                lemma_model_kind(&a);
                lemma_model_kind(&b);
            }
            if matches!(*a, Node::Empty) {
                unwrap_rc(b)
            } else if matches!(*b, Node::Empty) {
                unwrap_rc(a)
            } else if same_node(&a, &b) {
                unwrap_rc(a)
            } else {
                Node::Alt(a, b)
            }
        },
        Node::Concat(parts) => {
            let ghost ps = models(parts@);
            proof {
                lemma_models(parts@);
            }
            let mut i: usize = 0;
            while i < parts.len()
                invariant
                    i <= parts@.len(),
                    ps == models(parts@),
                    orig == Re::Concat(ps),
                    orig == node@,
                    ps.len() == parts@.len(),
                    forall|j: int| 0 <= j < parts@.len() ==> #[trigger] ps[j] == parts@[j].model(),
                    forall|j: int| 0 <= j < i ==> !(#[trigger] ps[j] is Empty),
                decreases parts@.len() - i,
            {
                if matches!(parts[i], Node::Empty) {
                    assert(ps[i as int] is Empty);
                    assert(has_empty(ps));
                    return Node::Empty;
                }
                proof {
                    lemma_model_kind(&parts[i as int]);
                }
                i += 1;
            }
            assert(!has_empty(ps));
            let mut flat: Vec<Node> = Vec::new();
            let ghost k: int = 0;
            for part in it: parts
                invariant
                    it.seq() == parts@,
                    ps == models(parts@),
                    orig == Re::Concat(ps),
                    orig == node@,
                    !has_empty(ps),
                    ps.len() == parts@.len(),
                    forall|j: int| 0 <= j < parts@.len() ==> #[trigger] ps[j] == parts@[j].model(),
                    models(flat@) == flatten(ps.take(it.index() as int)),
            {
                let ghost idx = it.index() as int;
                let ghost before = flat@;
                proof {
                    lemma_model_kind(&part);
                    assert(ps.take(idx + 1).drop_last() =~= ps.take(idx));
                    assert(ps.take(idx + 1).last() == part@);
                    assert(flatten(ps.take(idx + 1)) == flatten(ps.take(idx)) + piece(part@));
                }
                match part {
                    Node::Epsilon => {
                        assert(piece(Re::Epsilon) =~= Seq::<Re>::empty());
                        assert(flatten(ps.take(idx + 1)) =~= flatten(ps.take(idx)));
                        assert(models(flat@) == flatten(ps.take(idx + 1)));
                    },
                    Node::Concat(mut inner) => {
                        let ghost inner_seq = inner@;
                        flat.append(&mut inner);
                        proof {
                            lemma_models_append(before, inner_seq);
                        }
                        assert(piece(ps[idx]) == models(inner_seq));
                        assert(models(flat@) == flatten(ps.take(idx + 1)));
                    },
                    other => {
                        flat.push(other);
                        proof {
                            assert(flat@ =~= before + seq![other]);
                            lemma_models_append(before, seq![other]);
                            lemma_models_ext(seq![other], seq![other@]);
                        }
                        assert(piece(ps[idx]) == seq![other@]);
                        assert(models(flat@) == flatten(ps.take(idx + 1)));
                    },
                }
            }
            assert(ps.take(parts@.len() as int) =~= ps);
            proof {
                lemma_models(flat@);
            }
            assert(models(flat@) == flatten(ps));
            if flat.len() == 0 {
                Node::Epsilon
            } else if flat.len() == 1 {
                flat.pop().unwrap()
            } else {
                Node::Concat(flat)
            }
        },
        other => other,
    }
}

impl Node {
    /// Computes the Brzozowski derivative of this node with respect to a single input
    /// character `c`, which is the first character of the input when `at_start` holds.
    ///
    /// What the derivative matches is what may follow `c`, at a position past the start.
    pub fn derivative_at(&self, c: char, at_start: bool) -> (r: Node)
        ensures
            r@ == deriv(self@, c, at_start),
            bounds_ok(self@) ==> bounds_ok(r@),
            bounds_ok(self@) ==> forall|w: Seq<char>, at_end: bool|
                #![trigger matches_at(r@, w, false, at_end)]
                matches_at(r@, w, false, at_end) == matches_at(self@, seq![c] + w, at_start, at_end),
        decreases self, 0nat,
    {
        proof {
            if bounds_ok(self@) {
                lemma_deriv_bounds(self@, c, at_start);
                assert forall|w: Seq<char>, at_end: bool|
                    #![trigger matches_at(deriv(self@, c, at_start), w, false, at_end)]
                    matches_at(deriv(self@, c, at_start), w, false, at_end) == matches_at(
                        self@,
                        seq![c] + w,
                        at_start,
                        at_end,
                    ) by {
                    lemma_deriv(self@, c, w, at_start, at_end);
                }
            }
        }
        match self {
            Node::Empty => Node::Empty,
            Node::Epsilon => Node::Empty,
            Node::Literal(lit) => {
                if *lit == c {
                    Node::Epsilon
                } else {
                    Node::Empty
                }
            },
            Node::AnyChar => Node::Epsilon,
            Node::Class { negated, items } => {
                let hit = class_matches(items, c);
                if hit != *negated {
                    Node::Epsilon
                } else {
                    Node::Empty
                }
            },
            Node::ClassShorthand(kind) => {
                if shorthand_matches(*kind, c) {
                    Node::Epsilon
                } else {
                    Node::Empty
                }
            },
            Node::Concat(nodes) => {
                let slice = nodes.as_slice();
                assert(decreases_to!(*self => slice@));
                derive_concat(slice, c, at_start)
            },
            Node::Alt(a, b) => {
                let da = a.derivative_at(c, at_start);
                let db = b.derivative_at(c, at_start);
                simplify(Node::Alt(Rc::new(da), Rc::new(db)))
            },
            // d/dc(a*) = d(a,c) · a*
            Node::Star(a) => {
                let da = a.derivative_at(c, at_start);
                let parts = vec![da, Node::Star(rc_clone(a))];
                proof {
                    lemma_models_ext(parts@, seq![parts@[0]@, parts@[1]@]);
                }
                simplify(Node::Concat(parts))
            },
            // a+ == a a*, derives the same way.
            Node::Plus(a) => {
                let da = a.derivative_at(c, at_start);
                let parts = vec![da, Node::Star(rc_clone(a))];
                proof {
                    lemma_models_ext(parts@, seq![parts@[0]@, parts@[1]@]);
                }
                simplify(Node::Concat(parts))
            },
            // a? == a|ε, and d(ε,c) = ∅, reduces to d(a,c).
            Node::Optional(a) => a.derivative_at(c, at_start),
            Node::Repeat { node, min, max } => derive_repeat(node, *min, *max, c, at_start),
            Node::Group(inner) => inner.derivative_at(c, at_start),
            Node::StartAnchor => Node::Empty,
            Node::EndAnchor => Node::Empty,
        }
    }

    /// The derivative by `c` of the tree taken as a whole pattern, with `c` the first
    /// character of the input.
    pub fn derivative(&self, c: char) -> (r: Node)
        ensures
            r@ == deriv(self@, c, true),
            bounds_ok(self@) ==> bounds_ok(r@),
            bounds_ok(self@) ==> forall|w: Seq<char>, at_end: bool|
                #![trigger matches_at(r@, w, false, at_end)]
                matches_at(r@, w, false, at_end) == matches_at(self@, seq![c] + w, true, at_end),
            bounds_ok(self@) && !has_start(self@) ==> forall|w: Seq<char>|
                #![trigger in_language(r@, w)]
                in_language(r@, w) == in_language(self@, seq![c] + w),
    {
        proof {
            if bounds_ok(self@) && !has_start(self@) {
                assert forall|w: Seq<char>|
                    #![trigger in_language(deriv(self@, c, true), w)]
                    in_language(deriv(self@, c, true), w) == in_language(self@, seq![c] + w) by {
                    lemma_deriv_language(self@, c, w);
                }
            }
        }
        self.derivative_at(c, true)
    }
}

/// The derivative of the concatenation of `nodes`.
fn derive_concat(nodes: &[Node], c: char, at_start: bool) -> (r: Node)
    ensures
        r@ == deriv_concat(models(nodes@), c, at_start),
    decreases nodes@, 1nat,
{
    proof {
        lemma_models(nodes@);
    }
    if nodes.len() == 0 {
        Node::Empty
    } else if nodes.len() == 1 {
        assert(decreases_to!(nodes@ => nodes@[0]));
        nodes[0].derivative_at(c, at_start)
    } else {
        let first = &nodes[0];
        let rest = &nodes[1..nodes.len()];
        assert(decreases_to!(nodes@ => nodes@[0]));
        assert(decreases_to!(nodes@ => rest@));
        proof {
            lemma_models_subrange(nodes@, 1, nodes@.len() as int);
        }
        let head_parts = vec![first.derivative_at(c, at_start), Node::Concat(clone_nodes(rest))];
        proof {
            lemma_models_ext(head_parts@, seq![head_parts@[0]@, head_parts@[1]@]);
        }
        let head_deriv = simplify(Node::Concat(head_parts));
        if first.nullable_at(at_start, false) {
            let tail_deriv = derive_concat(rest, c, at_start);
            simplify(Node::Alt(Rc::new(head_deriv), Rc::new(tail_deriv)))
        } else {
            head_deriv
        }
    }
}

// Computes derivative of a pattern. Consumes one char, updates bounds, concats tail.
// When the repeated part can match the empty string, the copies before the one that
// reads `c` may all be empty, so the tail needs no more copies.
fn derive_repeat(node: &Rc<Node>, min: u32, max: Option<u32>, c: char, at_start: bool) -> (r: Node)
    ensures
        r@ == deriv(Re::Repeat(Box::new(node@), min, max), c, at_start),
    decreases node, 1nat,
{
    if min == 0 && max == Some(0u32) {
        return Node::Empty;
    }
    let next_min = if node.nullable_at(at_start, false) {
        0
    } else {
        min.saturating_sub(1)
    };
    let next_max = match max {
        Some(m) => Some(m.saturating_sub(1)),
        None => None,
    };
    let tail = Node::Repeat { node: rc_clone(node), min: next_min, max: next_max };
    let parts = vec![node.derivative_at(c, at_start), tail];
    proof {
        lemma_models_ext(parts@, seq![parts@[0]@, parts@[1]@]);
    }
    simplify(Node::Concat(parts))
}

/// Matches `input` against a parsed regex `node` by folding a Brzozowski
/// derivative over every character, then checking nullability at the end.
pub fn is_match(node: &Node, input: &str) -> (r: bool)
    ensures
        r == accepts(node@, input@),
        bounds_ok(node@) ==> (r == in_language(node@, input@)),
{
    proof {
        if bounds_ok(node@) {
            lemma_accepts(node@, input@);
        }
    }
    let mut current = node.clone();
    let mut first = true;
    for c in it: input.chars()
        invariant
            it.seq() == input@,
            first == (it.index() == 0),
            bounds_ok(node@) ==> (accepts(node@, input@) == in_language(node@, input@)),
            current@ == deriv_all(node@, input@.take(it.index() as int)),
    {
        let ghost k = it.index() as int;
        proof {
            assert(input@.take(k + 1).drop_last() =~= input@.take(k));
        }
        current = current.derivative_at(c, first);
        first = false;
        if matches!(current, Node::Empty) {
            proof {
                lemma_model_kind(&current);
                lemma_stays_empty(node@, input@, k + 1);
            }
            return false;
        }
    }
    assert(input@.take(input@.len() as int) =~= input@);
    current.nullable_at(first, true)
}

} // verus!

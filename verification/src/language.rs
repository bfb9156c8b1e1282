use crate::model::{
    accepts, alt, cat2, class_hit, dec_opt, deriv, deriv_all, deriv_concat, flatten,
    has_empty, next_min, nullable, piece, shorthand_hit, simp, Re, char_is_alphanumeric,
};
use crate::parser::ClassItem;
use vstd::prelude::*;

verus! {

/// Is `k` a repetition count that `{min,max}` allows (`max` of `None`: no upper bound)?
pub open spec fn count_ok(k: nat, min: u32, max: Option<u32>) -> bool {
    &&& min <= k
    &&& match max {
        Some(m) => k <= m,
        None => true,
    }
}

/// Does `r` match `s`, where `s` begins at the start of the input when `at_start` holds and
/// ends at its end when `at_end` holds?  `^` matches the empty string only at the start of
/// the input and `$` only at its end.
pub open spec fn matches_at(r: Re, s: Seq<char>, at_start: bool, at_end: bool) -> bool
    decreases s.len(), r, 0nat,
{
    match r {
        Re::Empty => false,
        Re::Epsilon => s.len() == 0,
        Re::Literal(l) => s.len() == 1 && s[0] == l,
        Re::AnyChar => s.len() == 1,
        Re::Class(negated, items) => s.len() == 1 && class_hit(items, s[0]) != negated,
        Re::ClassShorthand(kind) => s.len() == 1 && shorthand_hit(kind, s[0]),
        Re::Concat(parts) => matches_seq(parts, s, at_start, at_end),
        Re::Alt(a, b) => matches_at(*a, s, at_start, at_end) || matches_at(*b, s, at_start, at_end),
        Re::Star(a) => matches_star(*a, s, at_start, at_end),
        Re::Plus(a) => exists|i: int|
            #![trigger s.take(i)]
            0 <= i <= s.len() && matches_at(*a, s.take(i), at_start, at_end && i == s.len())
                && matches_star(*a, s.skip(i), at_start && i == 0, at_end),
        Re::Optional(a) => s.len() == 0 || matches_at(*a, s, at_start, at_end),
        Re::Repeat(a, min, max) => exists|k: nat|
            #![trigger count_ok(k, min, max)]
            count_ok(k, min, max) && matches_pow(*a, k, s, at_start, at_end),
        Re::Group(a) => matches_at(*a, s, at_start, at_end),
        Re::StartAnchor => s.len() == 0 && at_start,
        Re::EndAnchor => s.len() == 0 && at_end,
    }
}

/// Does `s` split into pieces that the parts match, in order?
pub open spec fn matches_seq(parts: Seq<Re>, s: Seq<char>, at_start: bool, at_end: bool) -> bool
    decreases s.len(), parts, 0nat,
{
    if parts.len() == 0 {
        s.len() == 0
    } else {
        exists|i: int|
            #![trigger s.take(i)]
            0 <= i <= s.len() && matches_at(parts[0], s.take(i), at_start, at_end && i == s.len())
                && matches_seq(
                parts.subrange(1, parts.len() as int),
                s.skip(i),
                at_start && i == 0,
                at_end,
            )
    }
}

/// Does `s` split into zero or more non-empty pieces that `a` matches?
pub open spec fn matches_star(a: Re, s: Seq<char>, at_start: bool, at_end: bool) -> bool
    decreases s.len(), a, 1nat,
{
    s.len() == 0 || exists|i: int|
        #![trigger s.take(i)]
        0 < i <= s.len() && matches_at(a, s.take(i), at_start, at_end && i == s.len())
            && matches_star(a, s.skip(i), false, at_end)
}

/// Does `s` split into exactly `k` pieces that `a` matches?
pub open spec fn matches_pow(a: Re, k: nat, s: Seq<char>, at_start: bool, at_end: bool) -> bool
    decreases s.len(), a, k,
{
    if k == 0 {
        s.len() == 0
    } else {
        exists|i: int|
            #![trigger s.take(i)]
            0 <= i <= s.len() && matches_at(a, s.take(i), at_start, at_end && i == s.len())
                && matches_pow(a, (k - 1) as nat, s.skip(i), at_start && i == 0, at_end)
    }
}

/// Does the whole input `s` belong to the language of `r`?
pub open spec fn in_language(r: Re, s: Seq<char>) -> bool {
    matches_at(r, s, true, true)
}

/// A one-part concatenation matches what its part matches.
pub proof fn lemma_seq_single(x: Re, s: Seq<char>, st: bool, en: bool)
    ensures
        matches_seq(seq![x], s, st, en) == matches_at(x, s, st, en),
{
    let p = seq![x];
    assert(p.subrange(1, 1) =~= Seq::<Re>::empty());
    assert(p[0] == x);
    if matches_seq(p, s, st, en) {
        let i = choose|i: int|
            #![trigger s.take(i)]
            0 <= i <= s.len() && matches_at(p[0], s.take(i), st, en && i == s.len())
                && matches_seq(p.subrange(1, 1), s.skip(i), st && i == 0, en);
        assert(s.skip(i).len() == 0);
        assert(i == s.len());
        assert(s.take(i) =~= s);
    }
    if matches_at(x, s, st, en) {
        let n = s.len() as int;
        assert(s.take(n) =~= s);
        assert(s.skip(n).len() == 0);
        assert(matches_seq(p.subrange(1, 1), s.skip(n), st && n == 0, en));
        assert(matches_at(p[0], s.take(n), st, en && n == s.len()));
    }
}

/// A concatenation of `p + q` matches exactly the strings that split into a match of `p`
/// followed by a match of `q`.
#[verifier::rlimit(60)]
#[verifier::spinoff_prover]
pub proof fn lemma_seq_append(p: Seq<Re>, q: Seq<Re>, s: Seq<char>, st: bool, en: bool)
    ensures
        matches_seq(p + q, s, st, en) <==> exists|m: int|
            #![trigger s.take(m)]
            0 <= m <= s.len() && matches_seq(p, s.take(m), st, en && m == s.len()) && matches_seq(
                q,
                s.skip(m),
                st && m == 0,
                en,
            ),
    decreases p.len(),
{
    if p.len() == 0 {
        assert(p + q =~= q);
        if matches_seq(q, s, st, en) {
            assert(s.take(0).len() == 0);
            assert(s.skip(0) =~= s);
            assert(matches_seq(p, s.take(0), st, en && 0 == s.len()));
            assert(matches_seq(q, s.skip(0), st && 0 == 0, en));
        }
        if exists|m: int|
            #![trigger s.take(m)]
            0 <= m <= s.len() && matches_seq(p, s.take(m), st, en && m == s.len()) && matches_seq(
                q,
                s.skip(m),
                st && m == 0,
                en,
            ) {
            let m = choose|m: int|
                #![trigger s.take(m)]
                0 <= m <= s.len() && matches_seq(p, s.take(m), st, en && m == s.len())
                    && matches_seq(q, s.skip(m), st && m == 0, en);
            assert(m == 0);
            assert(s.skip(0) =~= s);
            assert((st && m == 0) == st);
        }
    } else {
        let x = p[0];
        let p1 = p.subrange(1, p.len() as int);
        let pq = p + q;
        assert(pq[0] == x);
        assert(pq.subrange(1, pq.len() as int) =~= p1 + q);
        if matches_seq(pq, s, st, en) {
            let i = choose|i: int|
                #![trigger s.take(i)]
                0 <= i <= s.len() && matches_at(pq[0], s.take(i), st, en && i == s.len())
                    && matches_seq(pq.subrange(1, pq.len() as int), s.skip(i), st && i == 0, en);
            let t = s.skip(i);
            let st1 = st && i == 0;
            lemma_seq_append(p1, q, t, st1, en);
            let j = choose|j: int|
                #![trigger t.take(j)]
                0 <= j <= t.len() && matches_seq(p1, t.take(j), st1, en && j == t.len())
                    && matches_seq(q, t.skip(j), st1 && j == 0, en);
            let m = i + j;
            let u = s.take(m);
            assert(u.take(i) =~= s.take(i));
            assert(u.skip(i) =~= t.take(j));
            let em = en && m == s.len();
            assert((em && i == u.len()) == (en && i == s.len()));
            assert(em == (en && j == t.len()));
            assert(matches_at(p[0], u.take(i), st, em && i == u.len()));
            assert(matches_seq(p1, u.skip(i), st && i == 0, em));
            assert(matches_seq(p, u, st, em));
            assert(s.skip(m) =~= t.skip(j));
            assert((st1 && j == 0) == (st && m == 0));
            assert(matches_seq(q, s.skip(m), st && m == 0, en));
        }
        if exists|m: int|
            #![trigger s.take(m)]
            0 <= m <= s.len() && matches_seq(p, s.take(m), st, en && m == s.len()) && matches_seq(
                q,
                s.skip(m),
                st && m == 0,
                en,
            ) {
            let m = choose|m: int|
                #![trigger s.take(m)]
                0 <= m <= s.len() && matches_seq(p, s.take(m), st, en && m == s.len())
                    && matches_seq(q, s.skip(m), st && m == 0, en);
            let u = s.take(m);
            let em = en && m == s.len();
            let i = choose|i: int|
                #![trigger u.take(i)]
                0 <= i <= u.len() && matches_at(p[0], u.take(i), st, em && i == u.len())
                    && matches_seq(p1, u.skip(i), st && i == 0, em);
            let t = s.skip(i);
            let j = m - i;
            let st1 = st && i == 0;
            assert(t.take(j) =~= u.skip(i));
            assert(t.skip(j) =~= s.skip(m));
            assert(em == (en && j == t.len()));
            assert((st1 && j == 0) == (st && m == 0));
            assert(matches_seq(p1, t.take(j), st1, en && j == t.len()));
            assert(matches_seq(q, t.skip(j), st1 && j == 0, en));
            lemma_seq_append(p1, q, t, st1, en);
            assert(matches_seq(p1 + q, t, st1, en));
            assert(s.take(i) =~= u.take(i));
            assert((em && i == u.len()) == (en && i == s.len()));
            assert(matches_at(pq[0], s.take(i), st, en && i == s.len()));
            assert(matches_seq(pq.subrange(1, pq.len() as int), s.skip(i), st && i == 0, en));
        }
    }
}

/// A concatenation with an `∅` part matches nothing.
pub proof fn lemma_seq_has_empty(parts: Seq<Re>, s: Seq<char>, st: bool, en: bool)
    requires
        has_empty(parts),
    ensures
        !matches_seq(parts, s, st, en),
    decreases parts.len(),
{
    let rest = parts.subrange(1, parts.len() as int);
    if matches_seq(parts, s, st, en) {
        let i = choose|i: int|
            #![trigger s.take(i)]
            0 <= i <= s.len() && matches_at(parts[0], s.take(i), st, en && i == s.len())
                && matches_seq(rest, s.skip(i), st && i == 0, en);
        if !(parts[0] is Empty) {
            let k = choose|k: int| 0 <= k < parts.len() && #[trigger] parts[k] is Empty;
            assert(rest[k - 1] is Empty);
            assert(has_empty(rest));
            lemma_seq_has_empty(rest, s.skip(i), st && i == 0, en);
        }
    }
}

/// What a part contributes to a flattened concatenation matches what the part matches.
pub proof fn lemma_piece(x: Re, s: Seq<char>, st: bool, en: bool)
    ensures
        matches_seq(piece(x), s, st, en) == matches_at(x, s, st, en),
{
    match x {
        Re::Epsilon => {},
        Re::Concat(inner) => {},
        _ => {
            lemma_seq_single(x, s, st, en);
        },
    }
}

/// Flattening a concatenation keeps its language.
pub proof fn lemma_flatten(parts: Seq<Re>, s: Seq<char>, st: bool, en: bool)
    ensures
        matches_seq(flatten(parts), s, st, en) == matches_seq(parts, s, st, en),
    decreases parts.len(),
{
    if parts.len() > 0 {
        let d = parts.drop_last();
        let l = parts.last();
        assert(parts =~= d + seq![l]);
        lemma_seq_append(flatten(d), piece(l), s, st, en);
        lemma_seq_append(d, seq![l], s, st, en);
        assert forall|m: int| 0 <= m <= s.len() implies (matches_seq(
            flatten(d),
            #[trigger] s.take(m),
            st,
            en && m == s.len(),
        ) && matches_seq(piece(l), s.skip(m), st && m == 0, en)) == (matches_seq(
            d,
            s.take(m),
            st,
            en && m == s.len(),
        ) && matches_seq(seq![l], s.skip(m), st && m == 0, en)) by {
            lemma_flatten(d, s.take(m), st, en && m == s.len());
            lemma_piece(l, s.skip(m), st && m == 0, en);
            lemma_seq_single(l, s.skip(m), st && m == 0, en);
        }
    }
}

/// Simplifying a concatenation keeps its language.
proof fn lemma_simp_concat(parts: Seq<Re>, s: Seq<char>, st: bool, en: bool)
    ensures
        matches_at(simp(Re::Concat(parts)), s, st, en) == matches_seq(parts, s, st, en),
{
    if has_empty(parts) {
        lemma_seq_has_empty(parts, s, st, en);
    } else {
        let flat = flatten(parts);
        lemma_flatten(parts, s, st, en);
        if flat.len() == 1 {
            assert(flat =~= seq![flat[0]]);
            lemma_seq_single(flat[0], s, st, en);
        }
    }
}

/// The simplifier keeps the language.
pub proof fn lemma_simp(r: Re, s: Seq<char>, st: bool, en: bool)
    ensures
        matches_at(simp(r), s, st, en) == matches_at(r, s, st, en),
{
    match r {
        Re::Concat(parts) => {
            lemma_simp_concat(parts, s, st, en);
        },
        Re::Alt(a, b) => {
            assert(matches_at(r, s, st, en) == (matches_at(*a, s, st, en) || matches_at(
                *b,
                s,
                st,
                en,
            )));
            if *a is Empty {
                assert(!matches_at(*a, s, st, en));
            } else if *b is Empty {
                assert(!matches_at(*b, s, st, en));
            }
        },
        _ => {
            assert(simp(r) == r);
        },
    }
}

/// `k` copies of `a` match the empty string exactly when `k` is zero or `a` matches it there.
pub proof fn lemma_pow_empty(a: Re, k: nat, st: bool, en: bool)
    ensures
        matches_pow(a, k, Seq::empty(), st, en) == (k == 0 || matches_at(a, Seq::empty(), st, en)),
    decreases k,
{
    let e = Seq::<char>::empty();
    assert(e.take(0) =~= e);
    assert(e.skip(0) =~= e);
    if k > 0 {
        lemma_pow_empty(a, (k - 1) as nat, st, en);
        if matches_pow(a, k, e, st, en) {
            let i = choose|i: int|
                #![trigger e.take(i)]
                0 <= i <= e.len() && matches_at(a, e.take(i), st, en && i == e.len())
                    && matches_pow(a, (k - 1) as nat, e.skip(i), st && i == 0, en);
            assert(i == 0);
        }
        if matches_at(a, e, st, en) {
            assert(matches_at(a, e.take(0), st, en && 0 == e.len()));
            assert(matches_pow(a, (k - 1) as nat, e.skip(0), st && 0 == 0, en));
        }
    }
}

/// On a tree whose repetition bounds are in order, the nullability that the matcher computes
/// is whether the tree matches the empty string at that position.
pub proof fn lemma_nullable(r: Re, st: bool, en: bool)
    requires
        bounds_ok(r),
    ensures
        nullable(r, st, en) == matches_at(r, Seq::empty(), st, en),
    decreases r, 0nat,
{
    let e = Seq::<char>::empty();
    assert(e.take(0) =~= e);
    assert(e.skip(0) =~= e);
    match r {
        Re::Concat(parts) => {
            lemma_nullable_seq(parts, st, en);
        },
        Re::Alt(a, b) => {
            lemma_nullable(*a, st, en);
            lemma_nullable(*b, st, en);
        },
        Re::Plus(a) => {
            lemma_nullable(*a, st, en);
            if matches_at(*a, e, st, en) {
                assert(matches_at(*a, e.take(0), st, en && 0 == e.len()));
                assert(matches_star(*a, e.skip(0), st && 0 == 0, en));
                assert(matches_at(r, e, st, en));
            }
            if matches_at(r, e, st, en) {
                let i = choose|i: int|
                    #![trigger e.take(i)]
                    0 <= i <= e.len() && matches_at(*a, e.take(i), st, en && i == e.len())
                        && matches_star(*a, e.skip(i), st && i == 0, en);
                assert(i == 0);
            }
        },
        Re::Group(a) => {
            lemma_nullable(*a, st, en);
        },
        Re::Repeat(a, min, max) => {
            lemma_nullable(*a, st, en);
            if nullable(r, st, en) {
                if min == 0 {
                    assert(count_ok(0, min, max));
                    assert(matches_pow(*a, 0, e, st, en));
                } else {
                    lemma_pow_empty(*a, min as nat, st, en);
                    assert(count_ok(min as nat, min, max));
                }
                assert(matches_at(r, e, st, en));
            }
            if matches_at(r, e, st, en) {
                let k = choose|k: nat|
                    #![trigger count_ok(k, min, max)]
                    count_ok(k, min, max) && matches_pow(*a, k, e, st, en);
                lemma_pow_empty(*a, k, st, en);
            }
        },
        Re::Star(a) => {
            assert(matches_star(*a, e, st, en));
        },
        _ => {},
    }
}

/// The same for every part of a concatenation at once.
pub proof fn lemma_nullable_seq(parts: Seq<Re>, st: bool, en: bool)
    requires
        all_bounds_ok(parts),
    ensures
        crate::model::all_nullable(parts, st, en) == matches_seq(parts, Seq::empty(), st, en),
    decreases parts, 1nat,
{
    let e = Seq::<char>::empty();
    assert(e.take(0) =~= e);
    assert(e.skip(0) =~= e);
    if parts.len() > 0 {
        let rest = parts.subrange(1, parts.len() as int);
        lemma_nullable(parts[0], st, en);
        lemma_nullable_seq(rest, st, en);
        if matches_seq(parts, e, st, en) {
            let i = choose|i: int|
                #![trigger e.take(i)]
                0 <= i <= e.len() && matches_at(parts[0], e.take(i), st, en && i == e.len())
                    && matches_seq(rest, e.skip(i), st && i == 0, en);
            assert(i == 0);
        }
        if crate::model::all_nullable(parts, st, en) {
            assert(matches_at(parts[0], e.take(0), st, en && 0 == e.len()));
            assert(matches_seq(rest, e.skip(0), st && 0 == 0, en));
        }
    }
}

/// `k` matches of `a`, with `k` allowed by the bounds, are a match of the repetition.
pub proof fn lemma_repeat_intro(r: Re, k: nat, s: Seq<char>, st: bool, en: bool)
    requires
        r is Repeat,
        count_ok(k, r->Repeat_1, r->Repeat_2),
        matches_pow(*r->Repeat_0, k, s, st, en),
    ensures
        matches_at(r, s, st, en),
{
}

/// Does `w` split into a match of `x` followed by a match of `y`?
pub open spec fn splits(x: Re, y: Re, w: Seq<char>, st: bool, en: bool) -> bool {
    exists|i: int|
        #![trigger w.take(i)]
        0 <= i <= w.len() && matches_at(x, w.take(i), st, en && i == w.len()) && matches_at(
            y,
            w.skip(i),
            st && i == 0,
            en,
        )
}

/// A two-part concatenation matches what splits between its parts.
pub proof fn lemma_cat2(x: Re, y: Re, w: Seq<char>, st: bool, en: bool)
    ensures
        matches_at(cat2(x, y), w, st, en) == splits(x, y, w, st, en),
{
    let p = seq![x, y];
    assert(p[0] == x);
    assert(p.subrange(1, 2) =~= seq![y]);
    assert(matches_at(cat2(x, y), w, st, en) == matches_seq(p, w, st, en));
    if matches_at(cat2(x, y), w, st, en) {
        let i = choose|i: int|
            #![trigger w.take(i)]
            0 <= i <= w.len() && matches_at(p[0], w.take(i), st, en && i == w.len())
                && matches_seq(p.subrange(1, 2), w.skip(i), st && i == 0, en);
        lemma_seq_single(y, w.skip(i), st && i == 0, en);
        assert(matches_at(y, w.skip(i), st && i == 0, en));
    }
    if splits(x, y, w, st, en) {
        let i = choose|i: int|
            #![trigger w.take(i)]
            0 <= i <= w.len() && matches_at(x, w.take(i), st, en && i == w.len()) && matches_at(
                y,
                w.skip(i),
                st && i == 0,
                en,
            );
        lemma_seq_single(y, w.skip(i), st && i == 0, en);
        assert(matches_seq(p.subrange(1, 2), w.skip(i), st && i == 0, en));
        assert(matches_seq(p, w, st, en));
    }
}

/// Splitting `c` followed by `w` after `i + 1` characters.
pub proof fn lemma_shift(c: char, w: Seq<char>, i: int)
    requires
        0 <= i <= w.len(),
    ensures
        (seq![c] + w).take(i + 1) == seq![c] + w.take(i),
        (seq![c] + w).skip(i + 1) == w.skip(i),
{
    assert((seq![c] + w).take(i + 1) =~= seq![c] + w.take(i));
    assert((seq![c] + w).skip(i + 1) =~= w.skip(i));
}

/// If `c` followed by `w` is `k` matches of `a`, then its first non-empty piece starts with `c`:
/// `w` is the rest of that piece followed by `j < k` matches of `a`, and `j` is `k - 1`
/// unless `a` matches the empty string there.
pub proof fn lemma_pow_first(a: Re, k: nat, c: char, w: Seq<char>, st: bool, en: bool) -> (ji: (
    nat,
    int,
))
    requires
        matches_pow(a, k, seq![c] + w, st, en),
    ensures
        ji.0 < k,
        ji.0 == k - 1 || matches_at(a, Seq::empty(), st, false),
        0 <= ji.1 <= w.len(),
        matches_at(a, seq![c] + w.take(ji.1), st, en && ji.1 == w.len()),
        matches_pow(a, ji.0, w.skip(ji.1), false, en),
    decreases k,
{
    let cw = seq![c] + w;
    let m = choose|m: int|
        #![trigger cw.take(m)]
        0 <= m <= cw.len() && matches_at(a, cw.take(m), st, en && m == cw.len()) && matches_pow(
            a,
            (k - 1) as nat,
            cw.skip(m),
            st && m == 0,
            en,
        );
    if m == 0 {
        assert(cw.take(0) =~= Seq::<char>::empty());
        assert(cw.skip(0) =~= cw);
        assert(matches_at(a, Seq::empty(), st, false));
        assert(matches_pow(a, (k - 1) as nat, cw, st, en));
        let ji = lemma_pow_first(a, (k - 1) as nat, c, w, st, en);
        ji
    } else {
        lemma_shift(c, w, m - 1);
        ((k - 1) as nat, m - 1)
    }
}

/// Copies of `a` that match the empty string may be added in front of a match.
pub proof fn lemma_pow_pad(a: Re, n: nat, p: nat, s: Seq<char>, st: bool, en: bool)
    requires
        matches_at(a, Seq::empty(), st, false),
        matches_pow(a, n, s, st, en),
        s.len() > 0,
    ensures
        matches_pow(a, n + p, s, st, en),
    decreases p,
{
    if p > 0 {
        lemma_pow_pad(a, n, (p - 1) as nat, s, st, en);
        assert(s.take(0) =~= Seq::<char>::empty());
        assert(s.skip(0) =~= s);
        assert(matches_at(a, s.take(0), st, en && 0 == s.len()));
        assert(matches_pow(a, (n + p - 1) as nat, s.skip(0), st && 0 == 0, en));
    }
}

/// On a tree whose repetition bounds are in order, the derivative by `c` matches `w` (which
/// does not start the input) exactly when the tree matches `c` followed by `w`.
pub proof fn lemma_deriv(r: Re, c: char, w: Seq<char>, st: bool, en: bool)
    requires
        bounds_ok(r),
    ensures
        matches_at(deriv(r, c, st), w, false, en) == matches_at(r, seq![c] + w, st, en),
    decreases r, 0nat,
{
    let cw = seq![c] + w;
    assert(cw[0] == c);
    match r {
        Re::Concat(parts) => {
            lemma_deriv_concat(parts, c, w, st, en);
        },
        Re::Alt(a, b) => {
            lemma_simp(alt(deriv(*a, c, st), deriv(*b, c, st)), w, false, en);
            lemma_deriv(*a, c, w, st, en);
            lemma_deriv(*b, c, w, st, en);
        },
        Re::Star(a) => {
            let da = deriv(*a, c, st);
            lemma_simp(cat2(da, Re::Star(a)), w, false, en);
            lemma_cat2(da, Re::Star(a), w, false, en);
            if splits(da, Re::Star(a), w, false, en) {
                let i = choose|i: int|
                    #![trigger w.take(i)]
                    0 <= i <= w.len() && matches_at(da, w.take(i), false, en && i == w.len())
                        && matches_at(Re::Star(a), w.skip(i), false && i == 0, en);
                lemma_deriv(*a, c, w.take(i), st, en && i == w.len());
                lemma_shift(c, w, i);
                assert(matches_at(*a, cw.take(i + 1), st, en && i + 1 == cw.len()));
                assert(matches_star(*a, cw.skip(i + 1), false, en));
                assert(matches_star(*a, cw, st, en));
            }
            if matches_star(*a, cw, st, en) {
                let j = choose|j: int|
                    #![trigger cw.take(j)]
                    0 < j <= cw.len() && matches_at(*a, cw.take(j), st, en && j == cw.len())
                        && matches_star(*a, cw.skip(j), false, en);
                lemma_shift(c, w, j - 1);
                lemma_deriv(*a, c, w.take(j - 1), st, en && j - 1 == w.len());
                assert(matches_at(Re::Star(a), w.skip(j - 1), false && j - 1 == 0, en));
                assert(splits(da, Re::Star(a), w, false, en));
            }
        },
        Re::Plus(a) => {
            let da = deriv(*a, c, st);
            lemma_simp(cat2(da, Re::Star(a)), w, false, en);
            lemma_cat2(da, Re::Star(a), w, false, en);
            if splits(da, Re::Star(a), w, false, en) {
                let i = choose|i: int|
                    #![trigger w.take(i)]
                    0 <= i <= w.len() && matches_at(da, w.take(i), false, en && i == w.len())
                        && matches_at(Re::Star(a), w.skip(i), false && i == 0, en);
                lemma_deriv(*a, c, w.take(i), st, en && i == w.len());
                lemma_shift(c, w, i);
                assert(matches_at(*a, cw.take(i + 1), st, en && i + 1 == cw.len()));
                assert(matches_star(*a, cw.skip(i + 1), st && i + 1 == 0, en));
                assert(matches_at(r, cw, st, en));
            }
            if matches_at(r, cw, st, en) {
                let j = choose|j: int|
                    #![trigger cw.take(j)]
                    0 <= j <= cw.len() && matches_at(*a, cw.take(j), st, en && j == cw.len())
                        && matches_star(*a, cw.skip(j), st && j == 0, en);
                let j2 = if j > 0 {
                    j
                } else {
                    assert(cw.skip(0) =~= cw);
                    assert(matches_star(*a, cw, st, en));
                    choose|j2: int|
                        #![trigger cw.take(j2)]
                        0 < j2 <= cw.len() && matches_at(*a, cw.take(j2), st, en && j2 == cw.len())
                            && matches_star(*a, cw.skip(j2), false, en)
                };
                assert(0 < j2 <= cw.len() && matches_at(*a, cw.take(j2), st, en && j2 == cw.len())
                    && matches_star(*a, cw.skip(j2), false, en));
                lemma_shift(c, w, j2 - 1);
                lemma_deriv(*a, c, w.take(j2 - 1), st, en && j2 - 1 == w.len());
                assert(matches_at(Re::Star(a), w.skip(j2 - 1), false && j2 - 1 == 0, en));
                assert(splits(da, Re::Star(a), w, false, en));
            }
        },
        Re::Optional(a) => {
            lemma_deriv(*a, c, w, st, en);
        },
        Re::Group(a) => {
            lemma_deriv(*a, c, w, st, en);
        },
        Re::Repeat(a, min, max) => {
            lemma_deriv_repeat(r, c, w, st, en);
        },
        _ => {},
    }
}

/// The repetition case of [`lemma_deriv`].
proof fn lemma_deriv_repeat(r: Re, c: char, w: Seq<char>, st: bool, en: bool)
    requires
        r is Repeat,
        bounds_ok(r),
    ensures
        matches_at(deriv(r, c, st), w, false, en) == matches_at(r, seq![c] + w, st, en),
    decreases *r->Repeat_0, 1nat,
{
    let a = *r->Repeat_0;
    let min = r->Repeat_1;
    let max = r->Repeat_2;
    let cw = seq![c] + w;
    if min == 0 && max == Some(0u32) {
        if matches_at(r, cw, st, en) {
            let k = choose|k: nat|
                #![trigger count_ok(k, min, max)]
                count_ok(k, min, max) && matches_pow(a, k, cw, st, en);
            assert(k == 0);
        }
    } else {
        let da = deriv(a, c, st);
        let nm = next_min(a, min, st);
        let d = Re::Repeat(r->Repeat_0, nm, dec_opt(max));
        assert(deriv(r, c, st) == simp(cat2(da, d)));
        lemma_simp(cat2(da, d), w, false, en);
        lemma_cat2(da, d, w, false, en);
        lemma_nullable(a, st, false);
        if matches_at(r, cw, st, en) {
            let k = choose|k: nat|
                #![trigger count_ok(k, min, max)]
                count_ok(k, min, max) && matches_pow(a, k, cw, st, en);
            assert(k > 0);
            let ji = lemma_pow_first(a, k, c, w, st, en);
            let j = ji.0;
            let i = ji.1;
            assert(count_ok(j, nm, dec_opt(max)));
            lemma_repeat_intro(d, j, w.skip(i), false, en);
            assert(matches_at(d, w.skip(i), false && i == 0, en));
            lemma_deriv(a, c, w.take(i), st, en && i == w.len());
            assert(splits(da, d, w, false, en));
        }
        if splits(da, d, w, false, en) {
            let i = choose|i: int|
                #![trigger w.take(i)]
                0 <= i <= w.len() && matches_at(da, w.take(i), false, en && i == w.len())
                    && matches_at(d, w.skip(i), false && i == 0, en);
            let j = choose|j: nat|
                #![trigger count_ok(j, nm, dec_opt(max))]
                count_ok(j, nm, dec_opt(max)) && matches_pow(a, j, w.skip(i), false, en);
            lemma_deriv(a, c, w.take(i), st, en && i == w.len());
            lemma_shift(c, w, i);
            assert(matches_at(a, cw.take(i + 1), st, en && i + 1 == cw.len()));
            assert(matches_pow(a, j, cw.skip(i + 1), st && i + 1 == 0, en));
            assert(matches_pow(a, j + 1, cw, st, en));
            if j + 1 >= min {
                assert(count_ok(j + 1, min, max));
                lemma_repeat_intro(r, j + 1, cw, st, en);
            } else {
                assert(nm == 0);
                lemma_pow_pad(a, j + 1, (min - (j + 1)) as nat, cw, st, en);
                assert(count_ok(min as nat, min, max));
                lemma_repeat_intro(r, min as nat, cw, st, en);
            }
        }
    }
}

/// The concatenation case of [`lemma_deriv`].
pub proof fn lemma_deriv_concat(parts: Seq<Re>, c: char, w: Seq<char>, st: bool, en: bool)
    requires
        all_bounds_ok(parts),
    ensures
        matches_at(deriv_concat(parts, c, st), w, false, en) == matches_seq(
            parts,
            seq![c] + w,
            st,
            en,
        ),
    decreases parts, 1nat,
{
    let cw = seq![c] + w;
    if parts.len() == 1 {
        assert(parts =~= seq![parts[0]]);
        lemma_seq_single(parts[0], cw, st, en);
        lemma_deriv(parts[0], c, w, st, en);
    } else if parts.len() >= 2 {
        let x = parts[0];
        let rest = parts.subrange(1, parts.len() as int);
        let dx = deriv(x, c, st);
        let head = simp(cat2(dx, Re::Concat(rest)));
        lemma_simp(cat2(dx, Re::Concat(rest)), w, false, en);
        lemma_cat2(dx, Re::Concat(rest), w, false, en);
        lemma_deriv_concat(rest, c, w, st, en);
        lemma_nullable(x, st, false);
        let tail = deriv_concat(rest, c, st);
        if matches_seq(parts, cw, st, en) {
            let j = choose|j: int|
                #![trigger cw.take(j)]
                0 <= j <= cw.len() && matches_at(x, cw.take(j), st, en && j == cw.len())
                    && matches_seq(rest, cw.skip(j), st && j == 0, en);
            if j == 0 {
                assert(cw.take(0) =~= Seq::<char>::empty());
                assert(cw.skip(0) =~= cw);
                assert(nullable(x, st, false));
                assert(matches_at(tail, w, false, en));
                lemma_simp(alt(head, tail), w, false, en);
            } else {
                lemma_shift(c, w, j - 1);
                lemma_deriv(x, c, w.take(j - 1), st, en && j - 1 == w.len());
                assert(matches_at(Re::Concat(rest), w.skip(j - 1), false && j - 1 == 0, en));
                assert(splits(dx, Re::Concat(rest), w, false, en));
                assert(matches_at(head, w, false, en));
                if nullable(x, st, false) {
                    lemma_simp(alt(head, tail), w, false, en);
                }
            }
        }
        if matches_at(head, w, false, en) {
            let i = choose|i: int|
                #![trigger w.take(i)]
                0 <= i <= w.len() && matches_at(dx, w.take(i), false, en && i == w.len())
                    && matches_at(Re::Concat(rest), w.skip(i), false && i == 0, en);
            lemma_shift(c, w, i);
            lemma_deriv(x, c, w.take(i), st, en && i == w.len());
            assert(matches_at(x, cw.take(i + 1), st, en && i + 1 == cw.len()));
            assert(matches_seq(rest, cw.skip(i + 1), st && i + 1 == 0, en));
            assert(matches_seq(parts, cw, st, en));
        }
        if nullable(x, st, false) && matches_at(tail, w, false, en) {
            assert(cw.take(0) =~= Seq::<char>::empty());
            assert(cw.skip(0) =~= cw);
            assert(matches_at(x, cw.take(0), st, en && 0 == cw.len()));
            assert(matches_seq(rest, cw.skip(0), st && 0 == 0, en));
            assert(matches_seq(parts, cw, st, en));
        }
        if nullable(x, st, false) {
            lemma_simp(alt(head, tail), w, false, en);
        }
    }
}

/// Flattening keeps every part's repetition bounds in order.
proof fn lemma_flatten_bounds(parts: Seq<Re>)
    requires
        all_bounds_ok(parts),
    ensures
        all_bounds_ok(flatten(parts)),
    decreases parts.len(),
{
    lemma_all_bounds_ok(parts);
    if parts.len() > 0 {
        let d = parts.drop_last();
        let l = parts.last();
        lemma_all_bounds_ok(d);
        assert forall|i: int| 0 <= i < d.len() implies #[trigger] bounds_ok(d[i]) by {
            assert(d[i] == parts[i]);
        }
        lemma_flatten_bounds(d);
        let fd = flatten(d);
        let pl = piece(l);
        assert(bounds_ok(l));
        lemma_all_bounds_ok(fd);
        match l {
            Re::Concat(inner) => {
                lemma_all_bounds_ok(inner);
            },
            _ => {},
        }
        lemma_all_bounds_ok(pl);
        lemma_all_bounds_ok(fd + pl);
        assert forall|i: int| 0 <= i < (fd + pl).len() implies #[trigger] bounds_ok(
            (fd + pl)[i],
        ) by {
            if i < fd.len() {
                assert((fd + pl)[i] == fd[i]);
            } else {
                assert((fd + pl)[i] == pl[i - fd.len()]);
            }
        }
    }
}

/// The simplifier keeps repetition bounds in order.
proof fn lemma_simp_bounds(r: Re)
    requires
        bounds_ok(r),
    ensures
        bounds_ok(simp(r)),
{
    match r {
        Re::Concat(parts) => {
            if !has_empty(parts) {
                lemma_flatten_bounds(parts);
                let flat = flatten(parts);
                lemma_all_bounds_ok(flat);
                if flat.len() == 1 {
                    assert(bounds_ok(flat[0]));
                }
            }
        },
        _ => {},
    }
}

proof fn lemma_cat2_bounds(x: Re, y: Re)
    requires
        bounds_ok(x),
        bounds_ok(y),
    ensures
        bounds_ok(cat2(x, y)),
{
    lemma_all_bounds_ok(seq![x, y]);
}

/// A derivative of a tree whose repetition bounds are in order has them in order too.
pub proof fn lemma_deriv_bounds(r: Re, c: char, st: bool)
    requires
        bounds_ok(r),
    ensures
        bounds_ok(deriv(r, c, st)),
    decreases r, 0nat,
{
    match r {
        Re::Concat(parts) => {
            lemma_deriv_concat_bounds(parts, c, st);
        },
        Re::Alt(a, b) => {
            lemma_deriv_bounds(*a, c, st);
            lemma_deriv_bounds(*b, c, st);
            lemma_simp_bounds(alt(deriv(*a, c, st), deriv(*b, c, st)));
        },
        Re::Star(a) => {
            lemma_deriv_bounds(*a, c, st);
            lemma_cat2_bounds(deriv(*a, c, st), Re::Star(a));
            lemma_simp_bounds(cat2(deriv(*a, c, st), Re::Star(a)));
        },
        Re::Plus(a) => {
            lemma_deriv_bounds(*a, c, st);
            lemma_cat2_bounds(deriv(*a, c, st), Re::Star(a));
            lemma_simp_bounds(cat2(deriv(*a, c, st), Re::Star(a)));
        },
        Re::Optional(a) => {
            lemma_deriv_bounds(*a, c, st);
        },
        Re::Group(a) => {
            lemma_deriv_bounds(*a, c, st);
        },
        Re::Repeat(a, min, max) => {
            if !(min == 0 && max == Some(0u32)) {
                lemma_deriv_bounds(*a, c, st);
                let d = Re::Repeat(a, next_min(*a, min, st), dec_opt(max));
                assert(bounds_ok(d));
                lemma_cat2_bounds(deriv(*a, c, st), d);
                lemma_simp_bounds(cat2(deriv(*a, c, st), d));
            }
        },
        _ => {},
    }
}

/// The concatenation case of [`lemma_deriv_bounds`].
proof fn lemma_deriv_concat_bounds(parts: Seq<Re>, c: char, st: bool)
    requires
        all_bounds_ok(parts),
    ensures
        bounds_ok(deriv_concat(parts, c, st)),
    decreases parts, 1nat,
{
    if parts.len() == 1 {
        lemma_deriv_bounds(parts[0], c, st);
    } else if parts.len() >= 2 {
        let rest = parts.subrange(1, parts.len() as int);
        lemma_deriv_bounds(parts[0], c, st);
        let dx = deriv(parts[0], c, st);
        lemma_cat2_bounds(dx, Re::Concat(rest));
        lemma_simp_bounds(cat2(dx, Re::Concat(rest)));
        if nullable(parts[0], st, false) {
            lemma_deriv_concat_bounds(rest, c, st);
            lemma_simp_bounds(alt(simp(cat2(dx, Re::Concat(rest))), deriv_concat(rest, c, st)));
        }
    }
}

/// After the derivatives by the characters of `s`, the tree matches `w` exactly when the
/// original tree matches `s` followed by `w` from the start of the input.
pub proof fn lemma_deriv_all(r: Re, s: Seq<char>, w: Seq<char>, en: bool)
    requires
        bounds_ok(r),
    ensures
        bounds_ok(deriv_all(r, s)),
        matches_at(deriv_all(r, s), w, s.len() == 0, en) == matches_at(r, s + w, true, en),
    decreases s.len(),
{
    if s.len() == 0 {
        assert(s + w =~= w);
    } else {
        let s1 = s.drop_last();
        let c = s.last();
        lemma_deriv_all(r, s1, seq![c] + w, en);
        assert(s1 + (seq![c] + w) =~= s + w);
        let prev = deriv_all(r, s1);
        lemma_deriv(prev, c, w, s1.len() == 0, en);
        lemma_deriv_bounds(prev, c, s1.len() == 0);
        assert((s.len() == 1) == (s1.len() == 0));
    }
}

/// On a tree whose repetition bounds are in order, the matcher's answer is membership in the
/// language: `s` is accepted exactly when it matches the tree in its entirety.
pub proof fn lemma_accepts(r: Re, s: Seq<char>)
    requires
        bounds_ok(r),
    ensures
        accepts(r, s) == in_language(r, s),
{
    lemma_deriv_all(r, s, Seq::empty(), true);
    assert(s + Seq::<char>::empty() =~= s);
    lemma_nullable(deriv_all(r, s), s.len() == 0, true);
}

/// `a+` is `a a*`.
pub proof fn lemma_plus_is_one_then_star(a: Re, s: Seq<char>, st: bool, en: bool)
    ensures
        matches_at(Re::Plus(Box::new(a)), s, st, en) == matches_at(
            cat2(a, Re::Star(Box::new(a))),
            s,
            st,
            en,
        ),
{
    lemma_cat2(a, Re::Star(Box::new(a)), s, st, en);
    let p = Re::Plus(Box::new(a));
    assert(*p->Plus_0 == a);
    if matches_at(p, s, st, en) {
        let i = choose|i: int|
            #![trigger s.take(i)]
            0 <= i <= s.len() && matches_at(a, s.take(i), st, en && i == s.len()) && matches_star(
                a,
                s.skip(i),
                st && i == 0,
                en,
            );
        assert(matches_at(Re::Star(Box::new(a)), s.skip(i), st && i == 0, en));
    }
    if splits(a, Re::Star(Box::new(a)), s, st, en) {
        let i = choose|i: int|
            #![trigger s.take(i)]
            0 <= i <= s.len() && matches_at(a, s.take(i), st, en && i == s.len()) && matches_at(
                Re::Star(Box::new(a)),
                s.skip(i),
                st && i == 0,
                en,
            );
        assert(matches_star(a, s.skip(i), st && i == 0, en));
        assert(matches_at(p, s, st, en));
    }
}

/// `a?` is `a|ε`.
pub proof fn lemma_optional_is_alt_epsilon(a: Re, s: Seq<char>, st: bool, en: bool)
    ensures
        matches_at(Re::Optional(Box::new(a)), s, st, en) == matches_at(
            alt(a, Re::Epsilon),
            s,
            st,
            en,
        ),
{
    let o = Re::Optional(Box::new(a));
    assert(*o->Optional_0 == a);
    assert(matches_at(o, s, st, en) == (s.len() == 0 || matches_at(a, s, st, en)));
    assert(matches_at(Re::Epsilon, s, st, en) == (s.len() == 0));
}

/// `^` matches only where nothing has been read: a concatenation with `^` after the parts
/// `p` matches the input `s` exactly when `p` matches the empty string at the start of the
/// input and the parts `q` after it match all of `s`.
pub proof fn lemma_start_anchor(p: Seq<Re>, q: Seq<Re>, s: Seq<char>)
    ensures
        in_language(Re::Concat(p + seq![Re::StartAnchor] + q), s) == (matches_seq(
            p,
            Seq::empty(),
            true,
            s.len() == 0,
        ) && matches_seq(q, s, true, true)),
{
    let a = seq![Re::StartAnchor];
    let pa = p + a;
    let e = Seq::<char>::empty();
    lemma_seq_append(pa, q, s, true, true);
    assert(s.skip(0) =~= s);
    assert(s.take(0) =~= e);
    if in_language(Re::Concat(pa + q), s) {
        let m = choose|m: int|
            #![trigger s.take(m)]
            0 <= m <= s.len() && matches_seq(pa, s.take(m), true, true && m == s.len())
                && matches_seq(q, s.skip(m), true && m == 0, true);
        let u = s.take(m);
        let em = m == s.len();
        lemma_seq_append(p, a, u, true, em);
        let m2 = choose|m2: int|
            #![trigger u.take(m2)]
            0 <= m2 <= u.len() && matches_seq(p, u.take(m2), true, em && m2 == u.len())
                && matches_seq(a, u.skip(m2), true && m2 == 0, em);
        lemma_seq_single(Re::StartAnchor, u.skip(m2), true && m2 == 0, em);
        assert(m2 == 0);
        assert(u.skip(0).len() == 0);
        assert(m == 0);
        assert(u.take(0) =~= e);
        assert(matches_seq(p, e, true, s.len() == 0));
    }
    if matches_seq(p, e, true, s.len() == 0) && matches_seq(q, s, true, true) {
        let u = s.take(0);
        let em = 0 == s.len();
        lemma_seq_append(p, a, u, true, em);
        assert(u.take(0) =~= e);
        assert(u.skip(0) =~= e);
        lemma_seq_single(Re::StartAnchor, u.skip(0), true && 0 == 0, em);
        assert(matches_seq(p, u.take(0), true, em && 0 == u.len()));
        assert(matches_seq(a, u.skip(0), true && 0 == 0, em));
        assert(matches_seq(pa, u, true, em));
        assert(matches_seq(pa, s.take(0), true, true && 0 == s.len()));
        assert(matches_seq(q, s.skip(0), true && 0 == 0, true));
    }
    assert(p + a + q == pa + q);
}

/// `$` matches only where everything has been read: a concatenation with `$` after the parts
/// `p` matches the input `s` exactly when `p` matches all of `s` and the parts `q` after it
/// match the empty string at the end of the input.
pub proof fn lemma_end_anchor(p: Seq<Re>, q: Seq<Re>, s: Seq<char>)
    ensures
        in_language(Re::Concat(p + seq![Re::EndAnchor] + q), s) == (matches_seq(p, s, true, true)
            && matches_seq(q, Seq::empty(), s.len() == 0, true)),
{
    let a = seq![Re::EndAnchor];
    let pa = p + a;
    let e = Seq::<char>::empty();
    let n = s.len() as int;
    lemma_seq_append(pa, q, s, true, true);
    assert(s.take(n) =~= s);
    assert(s.skip(n) =~= e);
    if in_language(Re::Concat(pa + q), s) {
        let m = choose|m: int|
            #![trigger s.take(m)]
            0 <= m <= s.len() && matches_seq(pa, s.take(m), true, true && m == s.len())
                && matches_seq(q, s.skip(m), true && m == 0, true);
        let u = s.take(m);
        let em = m == s.len();
        lemma_seq_append(p, a, u, true, em);
        let m2 = choose|m2: int|
            #![trigger u.take(m2)]
            0 <= m2 <= u.len() && matches_seq(p, u.take(m2), true, em && m2 == u.len())
                && matches_seq(a, u.skip(m2), true && m2 == 0, em);
        lemma_seq_single(Re::EndAnchor, u.skip(m2), true && m2 == 0, em);
        assert(em);
        assert(m == n);
        assert(m2 == u.len());
        assert(u.take(m2) =~= s);
        assert(matches_seq(p, s, true, true));
        assert(matches_seq(q, e, n == 0, true));
    }
    if matches_seq(p, s, true, true) && matches_seq(q, e, s.len() == 0, true) {
        let u = s.take(n);
        lemma_seq_append(p, a, u, true, true);
        assert(u.take(n) =~= s);
        assert(u.skip(n) =~= e);
        lemma_seq_single(Re::EndAnchor, u.skip(n), true && n == 0, true);
        assert(matches_seq(p, u.take(n), true, true && n == u.len()));
        assert(matches_seq(a, u.skip(n), true && n == 0, true));
        assert(matches_seq(pa, u, true, true));
        assert(matches_seq(pa, s.take(n), true, true && n == s.len()));
        assert(matches_seq(q, s.skip(n), true && n == 0, true));
    }
    assert(p + a + q == pa + q);
}

/// Does `^` occur in the tree?
pub open spec fn has_start(r: Re) -> bool
    decreases r,
{
    match r {
        Re::StartAnchor => true,
        Re::Concat(parts) => any_start(parts),
        Re::Alt(a, b) => has_start(*a) || has_start(*b),
        Re::Star(a) => has_start(*a),
        Re::Plus(a) => has_start(*a),
        Re::Optional(a) => has_start(*a),
        Re::Group(a) => has_start(*a),
        Re::Repeat(a, _, _) => has_start(*a),
        _ => false,
    }
}

/// Does `^` occur in one of the parts?
pub open spec fn any_start(parts: Seq<Re>) -> bool
    decreases parts,
{
    if parts.len() == 0 {
        false
    } else {
        has_start(parts[0]) || any_start(parts.subrange(1, parts.len() as int))
    }
}

pub proof fn lemma_any_start(parts: Seq<Re>)
    ensures
        any_start(parts) <==> exists|i: int| 0 <= i < parts.len() && #[trigger] has_start(parts[i]),
    decreases parts.len(),
{
    if parts.len() > 0 {
        let rest = parts.subrange(1, parts.len() as int);
        lemma_any_start(rest);
        if has_start(parts[0]) {
            assert(0 <= 0 < parts.len() && has_start(parts[0]));
        }
        if any_start(rest) {
            let i = choose|i: int| 0 <= i < rest.len() && #[trigger] has_start(rest[i]);
            assert(parts[i + 1] == rest[i]);
            assert(has_start(parts[i + 1]));
        }
        if exists|i: int| 0 <= i < parts.len() && #[trigger] has_start(parts[i]) {
            let i = choose|i: int| 0 <= i < parts.len() && #[trigger] has_start(parts[i]);
            if i > 0 {
                assert(rest[i - 1] == parts[i]);
            }
        }
    }
}

/// Without `^`, where a match starts does not matter.
pub proof fn lemma_no_start(r: Re, s: Seq<char>, st: bool, en: bool)
    requires
        !has_start(r),
    ensures
        matches_at(r, s, st, en) == matches_at(r, s, false, en),
    decreases s.len(), r, 0nat,
{
    match r {
        Re::Concat(parts) => {
            lemma_no_start_seq(parts, s, st, en);
        },
        Re::Alt(a, b) => {
            lemma_no_start(*a, s, st, en);
            lemma_no_start(*b, s, st, en);
        },
        Re::Star(a) => {
            lemma_no_start_star(*a, s, st, en);
        },
        Re::Plus(a) => {
            assert forall|i: int| 0 <= i <= s.len() implies (matches_at(
                *a,
                #[trigger] s.take(i),
                st,
                en && i == s.len(),
            ) && matches_star(*a, s.skip(i), st && i == 0, en)) == (matches_at(
                *a,
                s.take(i),
                false,
                en && i == s.len(),
            ) && matches_star(*a, s.skip(i), false && i == 0, en)) by {
                lemma_no_start(*a, s.take(i), st, en && i == s.len());
                lemma_no_start_star(*a, s.skip(i), st && i == 0, en);
            }
            assert(matches_at(r, s, st, en) == matches_at(r, s, false, en));
        },
        Re::Optional(a) => {
            lemma_no_start(*a, s, st, en);
        },
        Re::Group(a) => {
            lemma_no_start(*a, s, st, en);
        },
        Re::Repeat(a, min, max) => {
            assert forall|k: nat| #[trigger] count_ok(k, min, max) implies matches_pow(
                *a,
                k,
                s,
                st,
                en,
            ) == matches_pow(*a, k, s, false, en) by {
                lemma_no_start_pow(*a, k, s, st, en);
            }
            assert(matches_at(r, s, st, en) == matches_at(r, s, false, en));
        },
        _ => {},
    }
}

proof fn lemma_no_start_seq(parts: Seq<Re>, s: Seq<char>, st: bool, en: bool)
    requires
        !any_start(parts),
    ensures
        matches_seq(parts, s, st, en) == matches_seq(parts, s, false, en),
    decreases s.len(), parts, 0nat,
{
    if parts.len() > 0 {
        let rest = parts.subrange(1, parts.len() as int);
        assert forall|i: int| 0 <= i <= s.len() implies (matches_at(
            parts[0],
            #[trigger] s.take(i),
            st,
            en && i == s.len(),
        ) && matches_seq(rest, s.skip(i), st && i == 0, en)) == (matches_at(
            parts[0],
            s.take(i),
            false,
            en && i == s.len(),
        ) && matches_seq(rest, s.skip(i), false && i == 0, en)) by {
            lemma_no_start(parts[0], s.take(i), st, en && i == s.len());
            lemma_no_start_seq(rest, s.skip(i), st && i == 0, en);
        }
        assert(matches_seq(parts, s, st, en) == matches_seq(parts, s, false, en));
    }
}

proof fn lemma_no_start_star(a: Re, s: Seq<char>, st: bool, en: bool)
    requires
        !has_start(a),
    ensures
        matches_star(a, s, st, en) == matches_star(a, s, false, en),
    decreases s.len(), a, 1nat,
{
    assert forall|i: int| 0 < i <= s.len() implies matches_at(
        a,
        #[trigger] s.take(i),
        st,
        en && i == s.len(),
    ) == matches_at(a, s.take(i), false, en && i == s.len()) by {
        lemma_no_start(a, s.take(i), st, en && i == s.len());
    }
}

proof fn lemma_no_start_pow(a: Re, k: nat, s: Seq<char>, st: bool, en: bool)
    requires
        !has_start(a),
    ensures
        matches_pow(a, k, s, st, en) == matches_pow(a, k, s, false, en),
    decreases s.len(), a, k,
{
    if k > 0 {
        assert forall|i: int| 0 <= i <= s.len() implies (matches_at(
            a,
            #[trigger] s.take(i),
            st,
            en && i == s.len(),
        ) && matches_pow(a, (k - 1) as nat, s.skip(i), st && i == 0, en)) == (matches_at(
            a,
            s.take(i),
            false,
            en && i == s.len(),
        ) && matches_pow(a, (k - 1) as nat, s.skip(i), false && i == 0, en)) by {
            lemma_no_start(a, s.take(i), st, en && i == s.len());
            lemma_no_start_pow(a, (k - 1) as nat, s.skip(i), st && i == 0, en);
        }
        assert(matches_pow(a, k, s, st, en) == matches_pow(a, k, s, false, en));
    }
}

/// Flattening brings in no `^`.
proof fn lemma_flatten_no_start(parts: Seq<Re>)
    requires
        !any_start(parts),
    ensures
        !any_start(flatten(parts)),
    decreases parts.len(),
{
    lemma_any_start(parts);
    if parts.len() > 0 {
        let d = parts.drop_last();
        let l = parts.last();
        lemma_any_start(d);
        if exists|i: int| 0 <= i < d.len() && #[trigger] has_start(d[i]) {
            let i = choose|i: int| 0 <= i < d.len() && #[trigger] has_start(d[i]);
            assert(d[i] == parts[i]);
        }
        lemma_flatten_no_start(d);
        let fd = flatten(d);
        let pl = piece(l);
        assert(!has_start(l)) by {
            if has_start(l) {
                assert(parts[parts.len() - 1] == l);
            }
        }
        lemma_any_start(fd);
        match l {
            Re::Concat(inner) => {
                lemma_any_start(inner);
            },
            _ => {},
        }
        lemma_any_start(pl);
        lemma_any_start(fd + pl);
        if exists|i: int| 0 <= i < (fd + pl).len() && #[trigger] has_start((fd + pl)[i]) {
            let i = choose|i: int| 0 <= i < (fd + pl).len() && #[trigger] has_start((fd + pl)[i]);
            if i < fd.len() {
                assert((fd + pl)[i] == fd[i]);
            } else {
                assert((fd + pl)[i] == pl[i - fd.len()]);
            }
        }
    }
}

/// The simplifier brings in no `^`.
proof fn lemma_simp_no_start(r: Re)
    requires
        !has_start(r),
    ensures
        !has_start(simp(r)),
{
    match r {
        Re::Concat(parts) => {
            if !has_empty(parts) {
                lemma_flatten_no_start(parts);
                let flat = flatten(parts);
                lemma_any_start(flat);
                if flat.len() == 1 {
                    assert(!has_start(flat[0]));
                }
            }
        },
        _ => {},
    }
}

proof fn lemma_cat2_no_start(x: Re, y: Re)
    requires
        !has_start(x),
        !has_start(y),
    ensures
        !has_start(cat2(x, y)),
{
    let p = seq![x, y];
    lemma_any_start(p);
    assert(p[0] == x);
    assert(p[1] == y);
    if exists|i: int| 0 <= i < p.len() && #[trigger] has_start(p[i]) {
        let i = choose|i: int| 0 <= i < p.len() && #[trigger] has_start(p[i]);
        assert(i == 0 || i == 1);
    }
}

/// A derivative of a tree without `^` has none either.
pub proof fn lemma_deriv_no_start(r: Re, c: char, st: bool)
    requires
        !has_start(r),
    ensures
        !has_start(deriv(r, c, st)),
    decreases r, 0nat,
{
    match r {
        Re::Concat(parts) => {
            lemma_deriv_concat_no_start(parts, c, st);
        },
        Re::Alt(a, b) => {
            lemma_deriv_no_start(*a, c, st);
            lemma_deriv_no_start(*b, c, st);
            lemma_simp_no_start(alt(deriv(*a, c, st), deriv(*b, c, st)));
        },
        Re::Star(a) => {
            lemma_deriv_no_start(*a, c, st);
            lemma_cat2_no_start(deriv(*a, c, st), Re::Star(a));
            lemma_simp_no_start(cat2(deriv(*a, c, st), Re::Star(a)));
        },
        Re::Plus(a) => {
            lemma_deriv_no_start(*a, c, st);
            lemma_cat2_no_start(deriv(*a, c, st), Re::Star(a));
            lemma_simp_no_start(cat2(deriv(*a, c, st), Re::Star(a)));
        },
        Re::Optional(a) => {
            lemma_deriv_no_start(*a, c, st);
        },
        Re::Group(a) => {
            lemma_deriv_no_start(*a, c, st);
        },
        Re::Repeat(a, min, max) => {
            if !(min == 0 && max == Some(0u32)) {
                lemma_deriv_no_start(*a, c, st);
                let d = Re::Repeat(a, next_min(*a, min, st), dec_opt(max));
                lemma_cat2_no_start(deriv(*a, c, st), d);
                lemma_simp_no_start(cat2(deriv(*a, c, st), d));
            }
        },
        _ => {},
    }
}

proof fn lemma_deriv_concat_no_start(parts: Seq<Re>, c: char, st: bool)
    requires
        !any_start(parts),
    ensures
        !has_start(deriv_concat(parts, c, st)),
    decreases parts, 1nat,
{
    if parts.len() == 1 {
        lemma_deriv_no_start(parts[0], c, st);
    } else if parts.len() >= 2 {
        let rest = parts.subrange(1, parts.len() as int);
        lemma_deriv_no_start(parts[0], c, st);
        let dx = deriv(parts[0], c, st);
        lemma_cat2_no_start(dx, Re::Concat(rest));
        lemma_simp_no_start(cat2(dx, Re::Concat(rest)));
        if nullable(parts[0], st, false) {
            lemma_deriv_concat_no_start(rest, c, st);
            lemma_simp_no_start(alt(simp(cat2(dx, Re::Concat(rest))), deriv_concat(rest, c, st)));
        }
    }
}

/// For a pattern without `^`, the derivative by `c` is the usual one: it matches a whole
/// input `w` exactly when the pattern matches `c` followed by `w`.
pub proof fn lemma_deriv_language(r: Re, c: char, w: Seq<char>)
    requires
        bounds_ok(r),
        !has_start(r),
    ensures
        in_language(deriv(r, c, true), w) == in_language(r, seq![c] + w),
{
    lemma_deriv(r, c, w, true, true);
    lemma_deriv_no_start(r, c, true);
    lemma_no_start(deriv(r, c, true), w, true, true);
}

/// A class of one range holds exactly the characters between its ends, both ends included;
/// negated, it holds exactly the others.  Either way it matches single characters only.
pub proof fn lemma_class_range(negated: bool, lo: char, hi: char, s: Seq<char>)
    ensures
        in_language(Re::Class(negated, seq![ClassItem::Range(lo, hi)]), s) == (s.len() == 1 && ((
        lo <= s[0] && s[0] <= hi) != negated)),
{
    let items = seq![ClassItem::Range(lo, hi)];
    if s.len() == 1 {
        assert(items[0] == ClassItem::Range(lo, hi));
        if lo <= s[0] && s[0] <= hi {
            assert(crate::model::item_hit(items[0], s[0]));
        }
    }
}

/// A class of one character holds exactly that character; negated, exactly the others.
pub proof fn lemma_class_char(negated: bool, x: char, s: Seq<char>)
    ensures
        in_language(Re::Class(negated, seq![ClassItem::Char(x)]), s) == (s.len() == 1 && ((s[0]
            == x) != negated)),
{
    let items = seq![ClassItem::Char(x)];
    if s.len() == 1 {
        assert(items[0] == ClassItem::Char(x));
        if s[0] == x {
            assert(crate::model::item_hit(items[0], s[0]));
        }
    }
}

/// The items of a class add up: a class of the items `a` followed by the items `b` holds a
/// character exactly when the class of `a` or the class of `b` holds it.
pub proof fn lemma_class_union(a: Seq<ClassItem>, b: Seq<ClassItem>, c: char)
    ensures
        in_language(Re::Class(false, a + b), seq![c]) == (in_language(Re::Class(false, a), seq![c])
            || in_language(Re::Class(false, b), seq![c])),
{
    let ab = a + b;
    if class_hit(ab, c) {
        let i = choose|i: int| 0 <= i < ab.len() && crate::model::item_hit(#[trigger] ab[i], c);
        if i < a.len() {
            assert(ab[i] == a[i]);
            assert(class_hit(a, c));
        } else {
            assert(ab[i] == b[i - a.len()]);
            assert(class_hit(b, c));
        }
    }
    if class_hit(a, c) {
        let i = choose|i: int| 0 <= i < a.len() && crate::model::item_hit(#[trigger] a[i], c);
        assert(ab[i] == a[i]);
        assert(class_hit(ab, c));
    }
    if class_hit(b, c) {
        let i = choose|i: int| 0 <= i < b.len() && crate::model::item_hit(#[trigger] b[i], c);
        assert(ab[a.len() + i] == b[i]);
        assert(class_hit(ab, c));
    }
    assert(seq![c][0] == c);
}

/// What the shorthand classes hold: `\d` the ASCII digits; `\w` what `char::is_alphanumeric`
/// accepts and `_`; `\s` the Unicode white space (tab through carriage return, space, next
/// line, no-break space, ogham space mark, en quad through hair space, line and paragraph
/// separators, narrow no-break space, medium mathematical space, ideographic space); any
/// other letter nothing.  Inside `[...]` a shorthand holds the same characters.
pub proof fn lemma_shorthands(k: char, c: char)
    ensures
        in_language(Re::ClassShorthand('d'), seq![c]) == ('0' <= c && c <= '9'),
        in_language(Re::ClassShorthand('w'), seq![c]) == (char_is_alphanumeric(c) || c == '_'),
        in_language(Re::ClassShorthand('s'), seq![c]) == (('\u{9}' <= c && c <= '\u{d}') || c
            == ' ' || c == '\u{85}' || c == '\u{a0}' || c == '\u{1680}' || ('\u{2000}' <= c && c
            <= '\u{200a}') || c == '\u{2028}' || c == '\u{2029}' || c == '\u{202f}' || c
            == '\u{205f}' || c == '\u{3000}'),
        k != 'd' && k != 'w' && k != 's' ==> !in_language(Re::ClassShorthand(k), seq![c]),
        in_language(Re::Class(false, seq![ClassItem::Shorthand(k)]), seq![c]) == in_language(
            Re::ClassShorthand(k),
            seq![c],
        ),
{
    let items = seq![ClassItem::Shorthand(k)];
    assert(items[0] == ClassItem::Shorthand(k));
    assert(seq![c][0] == c);
    if crate::model::shorthand_hit(k, c) {
        assert(crate::model::item_hit(items[0], c));
    }
}

/// `k` copies of the literal `x` match exactly the strings of `k` characters that are all `x`.
proof fn lemma_pow_literal(x: char, k: nat, s: Seq<char>, st: bool, en: bool)
    ensures
        matches_pow(Re::Literal(x), k, s, st, en) == (s.len() == k && forall|i: int|
            0 <= i < s.len() ==> #[trigger] s[i] == x),
    decreases k,
{
    let a = Re::Literal(x);
    if k > 0 {
        if matches_pow(a, k, s, st, en) {
            let i = choose|i: int|
                #![trigger s.take(i)]
                0 <= i <= s.len() && matches_at(a, s.take(i), st, en && i == s.len())
                    && matches_pow(a, (k - 1) as nat, s.skip(i), st && i == 0, en);
            assert(i == 1);
            assert(s.take(1)[0] == s[0]);
            lemma_pow_literal(x, (k - 1) as nat, s.skip(1), st && i == 0, en);
            assert forall|j: int| 0 <= j < s.len() implies #[trigger] s[j] == x by {
                if j > 0 {
                    assert(s.skip(1)[j - 1] == s[j]);
                }
            }
        }
        if s.len() == k && forall|i: int| 0 <= i < s.len() ==> #[trigger] s[i] == x {
            lemma_pow_literal(x, (k - 1) as nat, s.skip(1), st && 1 == 0, en);
            assert forall|j: int| 0 <= j < s.skip(1).len() implies #[trigger] s.skip(1)[j] == x by {
                assert(s.skip(1)[j] == s[j + 1]);
            }
            assert(s.take(1) =~= seq![x]);
            assert(matches_at(a, s.take(1), st, en && 1 == s.len()));
            assert(matches_pow(a, (k - 1) as nat, s.skip(1), st && 1 == 0, en));
        }
    }
}

/// A bounded repetition `x{min,max}` of a literal matches exactly the strings of `x` whose
/// length lies between the bounds, both included (no upper bound for `max` of `None`).
pub proof fn lemma_repeat_literal(x: char, min: u32, max: Option<u32>, s: Seq<char>)
    ensures
        in_language(Re::Repeat(Box::new(Re::Literal(x)), min, max), s) == (min <= s.len() && (
        max matches Some(m) ==> s.len() <= m) && forall|i: int| 0 <= i < s.len() ==> #[trigger] s[i]
            == x),
{
    let r = Re::Repeat(Box::new(Re::Literal(x)), min, max);
    let all_x = forall|i: int| 0 <= i < s.len() ==> #[trigger] s[i] == x;
    let in_bounds = min <= s.len() && (max matches Some(m) ==> s.len() <= m);
    assert(*r->Repeat_0 == Re::Literal(x));
    assert(in_bounds == count_ok(s.len(), min, max));
    if in_language(r, s) {
        let k = choose|k: nat|
            #![trigger count_ok(k, min, max)]
            count_ok(k, min, max) && matches_pow(Re::Literal(x), k, s, true, true);
        lemma_pow_literal(x, k, s, true, true);
        assert(s.len() == k);
        assert(in_bounds && all_x);
    }
    lemma_pow_literal(x, s.len(), s, true, true);
    if in_bounds && all_x {
        assert(matches_pow(Re::Literal(x), s.len(), s, true, true));
        lemma_repeat_intro(r, s.len(), s, true, true);
    }
}

/// `x*` for a literal `x` matches exactly the strings made only of `x`, the empty one included.
pub proof fn lemma_star_literal(x: char, s: Seq<char>, st: bool, en: bool)
    ensures
        matches_star(Re::Literal(x), s, st, en) == forall|i: int|
            0 <= i < s.len() ==> #[trigger] s[i] == x,
    decreases s.len(),
{
    let a = Re::Literal(x);
    if s.len() > 0 {
        lemma_star_literal(x, s.skip(1), false, en);
        if matches_star(a, s, st, en) {
            let i = choose|i: int|
                #![trigger s.take(i)]
                0 < i <= s.len() && matches_at(a, s.take(i), st, en && i == s.len())
                    && matches_star(a, s.skip(i), false, en);
            assert(i == 1);
            assert(s.take(1)[0] == s[0]);
            assert forall|j: int| 0 <= j < s.len() implies #[trigger] s[j] == x by {
                if j > 0 {
                    assert(s.skip(1)[j - 1] == s[j]);
                }
            }
        }
        if forall|i: int| 0 <= i < s.len() ==> #[trigger] s[i] == x {
            assert forall|j: int| 0 <= j < s.skip(1).len() implies #[trigger] s.skip(1)[j] == x by {
                assert(s.skip(1)[j] == s[j + 1]);
            }
            assert(s.take(1) =~= seq![x]);
            assert(matches_at(a, s.take(1), st, en && 1 == s.len()));
        }
    }
}

/// A literal matches exactly itself, and `.` exactly one character.
pub proof fn lemma_literal_and_any(x: char, s: Seq<char>)
    ensures
        in_language(Re::Literal(x), s) == (s == seq![x]),
        in_language(Re::AnyChar, s) == (s.len() == 1),
{
    if s.len() == 1 && s[0] == x {
        assert(s =~= seq![x]);
    }
}

/// Every bounded repetition in the tree has `min <= max`.
pub open spec fn bounds_ok(r: Re) -> bool
    decreases r,
{
    match r {
        Re::Concat(parts) => all_bounds_ok(parts),
        Re::Alt(a, b) => bounds_ok(*a) && bounds_ok(*b),
        Re::Star(a) => bounds_ok(*a),
        Re::Plus(a) => bounds_ok(*a),
        Re::Optional(a) => bounds_ok(*a),
        Re::Group(a) => bounds_ok(*a),
        Re::Repeat(a, min, max) => bounds_ok(*a) && match max {
            Some(m) => min <= m,
            None => true,
        },
        _ => true,
    }
}

pub open spec fn all_bounds_ok(parts: Seq<Re>) -> bool
    decreases parts,
{
    if parts.len() == 0 {
        true
    } else {
        bounds_ok(parts[0]) && all_bounds_ok(parts.subrange(1, parts.len() as int))
    }
}

pub proof fn lemma_all_bounds_ok(parts: Seq<Re>)
    ensures
        all_bounds_ok(parts) <==> forall|i: int| 0 <= i < parts.len() ==> #[trigger] bounds_ok(parts[i]),
    decreases parts.len(),
{
    if parts.len() > 0 {
        let rest = parts.subrange(1, parts.len() as int);
        lemma_all_bounds_ok(rest);
        if all_bounds_ok(parts) {
            assert forall|i: int| 0 <= i < parts.len() implies #[trigger] bounds_ok(parts[i]) by {
                if i > 0 {
                    assert(parts[i] == rest[i - 1]);
                }
            }
        }
        if forall|i: int| 0 <= i < parts.len() ==> #[trigger] bounds_ok(parts[i]) {
            assert forall|i: int| 0 <= i < rest.len() implies #[trigger] bounds_ok(rest[i]) by {
                assert(rest[i] == parts[i + 1]);
            }
            assert(bounds_ok(parts[0]));
        }
    }
}

} // verus!

//! Glob-style matching over byte slices, in the dialect of Redis: `*`, `?`,
//! character classes with ranges and negation, and backslash escapes.

use vstd::prelude::*;

verus! {

pub const STAR: u8 = 0x2a;

pub const QUESTION: u8 = 0x3f;

pub const OPEN_BRACKET: u8 = 0x5b;

pub const CLOSE_BRACKET: u8 = 0x5d;

pub const BACKSLASH: u8 = 0x5c;

pub const CARET: u8 = 0x5e;

pub const DASH: u8 = 0x2d;

/// A byte lies between two bounds, whichever of them is the lower.
pub open spec fn in_range(a: u8, b: u8, c: u8) -> bool {
    (a <= c <= b) || (b <= c <= a)
}

/// Whether a byte is among the members that the body of a character class
/// lists. The body starts after `[` and an optional `^`; it ends at the first
/// unescaped `]` or with the pattern.
pub open spec fn class_members(p: Seq<u8>, c: u8) -> bool
    decreases p.len(),
{
    if p.len() == 0 {
        false
    } else if p[0] == BACKSLASH {
        if p.len() == 1 {
            false
        } else {
            p[1] == c || class_members(p.skip(2), c)
        }
    } else if p[0] == CLOSE_BRACKET {
        false
    } else if p.len() >= 3 && p[1] == DASH {
        in_range(p[0], p[2], c) || class_members(p.skip(3), c)
    } else {
        p[0] == c || class_members(p.skip(1), c)
    }
}

/// What follows a character class in the pattern, given the class's body:
/// the pattern after the closing `]`, nothing where the class is left open,
/// and `None` where the body ends in a lone backslash.
pub open spec fn class_tail(p: Seq<u8>) -> Option<Seq<u8>>
    decreases p.len(),
{
    if p.len() == 0 {
        Some(p)
    } else if p[0] == BACKSLASH {
        if p.len() == 1 {
            None
        } else {
            class_tail(p.skip(2))
        }
    } else if p[0] == CLOSE_BRACKET {
        Some(p.skip(1))
    } else if p.len() >= 3 && p[1] == DASH {
        class_tail(p.skip(3))
    } else {
        class_tail(p.skip(1))
    }
}

/// The body of a character class: what follows `[` and an optional `^`.
pub open spec fn class_body(p: Seq<u8>) -> Seq<u8> {
    if p.len() >= 2 && p[1] == CARET {
        p.skip(2)
    } else {
        p.skip(1)
    }
}

/// Whether the character class that a pattern starts with is negated.
pub open spec fn class_negated(p: Seq<u8>) -> bool {
    p.len() >= 2 && p[1] == CARET
}

/// What follows a class is never longer than its body.
pub proof fn lemma_class_tail_len(p: Seq<u8>)
    ensures
        class_tail(p) matches Some(rest) ==> rest.len() <= p.len(),
    decreases p.len(),
{
    if p.len() == 0 {
    } else if p[0] == BACKSLASH {
        if p.len() > 1 {
            lemma_class_tail_len(p.skip(2));
        }
    } else if p[0] == CLOSE_BRACKET {
    } else if p.len() >= 3 && p[1] == DASH {
        lemma_class_tail_len(p.skip(3));
    } else {
        lemma_class_tail_len(p.skip(1));
    }
}

/// Whether a pattern matches an input, once matching is under way: `*`
/// stands for any run of bytes, `?` for one byte, a class for one byte that
/// it admits, a backslash makes the next byte literal, and any other byte
/// stands for itself.
pub open spec fn matches_from(p: Seq<u8>, s: Seq<u8>) -> bool
    decreases p.len() + s.len(),
    via matches_from_decreases
{
    if p.len() == 0 {
        s.len() == 0
    } else if p[0] == STAR {
        matches_from(p.skip(1), s) || (s.len() > 0 && matches_from(p, s.skip(1)))
    } else if s.len() == 0 {
        false
    } else if p[0] == QUESTION {
        matches_from(p.skip(1), s.skip(1))
    } else if p[0] == OPEN_BRACKET {
        match class_tail(class_body(p)) {
            Some(rest) => (class_members(class_body(p), s[0]) != class_negated(p)) && matches_from(
                rest,
                s.skip(1),
            ),
            None => false,
        }
    } else if p[0] == BACKSLASH && p.len() > 1 {
        p[1] == s[0] && matches_from(p.skip(2), s.skip(1))
    } else {
        p[0] == s[0] && matches_from(p.skip(1), s.skip(1))
    }
}

#[via_fn]
proof fn matches_from_decreases(p: Seq<u8>, s: Seq<u8>) {
    if p.len() > 0 && p[0] == OPEN_BRACKET {
        lemma_class_tail_len(class_body(p));
    }
}

/// Whether a pattern matches an input. An empty input is matched by the
/// empty pattern alone.
pub open spec fn glob_matches(pattern: Seq<u8>, input: Seq<u8>) -> bool {
    if input.len() == 0 {
        pattern.len() == 0
    } else {
        matches_from(pattern, input)
    }
}

/// A pattern of nothing but `*`.
pub open spec fn all_stars(p: Seq<u8>) -> bool {
    forall|i: int| 0 <= i < p.len() ==> #[trigger] p[i] == STAR
}

/// Once the input is used up, what is left of the pattern matches exactly
/// when it is nothing but `*`.
pub proof fn lemma_matches_empty_input(p: Seq<u8>)
    ensures
        matches_from(p, Seq::<u8>::empty()) == all_stars(p),
    decreases p.len(),
{
    let e = Seq::<u8>::empty();
    if p.len() == 0 {
    } else if p[0] == STAR {
        lemma_matches_empty_input(p.skip(1));
        if all_stars(p.skip(1)) {
            assert forall|i: int| 0 <= i < p.len() implies #[trigger] p[i] == STAR by {
                if i > 0 {
                    assert(p.skip(1)[i - 1] == p[i]);
                }
            }
        } else {
            let i = choose|i: int| 0 <= i < p.skip(1).len() && p.skip(1)[i] != STAR;
            assert(p[i + 1] != STAR);
        }
    } else {
        assert(p[0] != STAR);
    }
}

/// A pattern of nothing but `*`, and at least one, matches every input.
pub proof fn lemma_star_matches_all(p: Seq<u8>, s: Seq<u8>)
    requires
        all_stars(p),
        p.len() > 0,
    ensures
        matches_from(p, s),
    decreases s.len(),
{
    if s.len() == 0 {
        lemma_matches_empty_input(p);
        assert(s =~= Seq::<u8>::empty());
    } else {
        assert(p[0] == STAR);
        lemma_star_matches_all(p, s.skip(1));
    }
}

/// Two `*` in a row match what one does.
pub proof fn lemma_star_collapse(p: Seq<u8>, s: Seq<u8>)
    requires
        p.len() >= 2,
        p[0] == STAR,
        p[1] == STAR,
    ensures
        matches_from(p, s) == matches_from(p.skip(1), s),
    decreases s.len(),
{
    let q = p.skip(1);
    assert(q[0] == STAR);
    if s.len() > 0 {
        lemma_star_collapse(p, s.skip(1));
    }
}

/// The empty pattern matches the empty input and nothing else.
pub proof fn lemma_empty_pattern(input: Seq<u8>)
    ensures
        glob_matches(Seq::<u8>::empty(), input) == (input.len() == 0),
{
}

/// The pattern `*` matches every input but the empty one.
pub proof fn lemma_lone_star(input: Seq<u8>)
    ensures
        glob_matches(seq![STAR], input) == (input.len() > 0),
{
    if input.len() > 0 {
        lemma_star_matches_all(seq![STAR], input);
    }
}

/// A class of one range admits the same bytes whichever bound is written
/// first, so the two patterns match the same inputs. The bounds are bytes
/// that a class reads as plain members: none of `^`, `\` and `]`.
pub proof fn lemma_range_either_way(lo: u8, hi: u8, input: Seq<u8>)
    requires
        lo != CARET && lo != BACKSLASH && lo != CLOSE_BRACKET,
        hi != CARET && hi != BACKSLASH && hi != CLOSE_BRACKET,
    ensures
        glob_matches(seq![OPEN_BRACKET, lo, DASH, hi, CLOSE_BRACKET], input) == glob_matches(
            seq![OPEN_BRACKET, hi, DASH, lo, CLOSE_BRACKET],
            input,
        ),
{
    if input.len() > 0 {
        lemma_one_range(lo, hi, input);
        lemma_one_range(hi, lo, input);
    }
}

/// A class of one range matches the inputs of one byte that lies between
/// the bounds.
pub proof fn lemma_one_range(lo: u8, hi: u8, input: Seq<u8>)
    requires
        lo != CARET && lo != BACKSLASH && lo != CLOSE_BRACKET,
        input.len() > 0,
    ensures
        glob_matches(seq![OPEN_BRACKET, lo, DASH, hi, CLOSE_BRACKET], input) == (input.len() == 1
            && in_range(lo, hi, input[0])),
{
    let p = seq![OPEN_BRACKET, lo, DASH, hi, CLOSE_BRACKET];
    let body = class_body(p);
    assert(body =~= seq![lo, DASH, hi, CLOSE_BRACKET]);
    let last = body.skip(3);
    assert(last =~= seq![CLOSE_BRACKET]);
    assert(last.skip(1) =~= Seq::<u8>::empty());
    assert(class_tail(last) == Some(Seq::<u8>::empty()));
    assert(class_tail(body) == Some(Seq::<u8>::empty()));
    assert(!class_members(last, input[0]));
    assert(class_members(body, input[0]) == in_range(lo, hi, input[0]));
    assert(matches_from(Seq::<u8>::empty(), input.skip(1)) == (input.len() == 1));
}

/// Matches the pattern from `pstart` against the input from `sstart`.
#[verifier::loop_isolation(false)]
fn glob_at(pattern: &[u8], pstart: usize, string: &[u8], sstart: usize) -> (r: bool)
    requires
        pstart <= pattern.len(),
        sstart <= string.len(),
    ensures
        r == matches_from(pattern@.skip(pstart as int), string@.skip(sstart as int)),
    decreases pattern.len() - pstart,
{
    let plen = pattern.len();
    let slen = string.len();
    let ghost goal = matches_from(pattern@.skip(pstart as int), string@.skip(sstart as int));
    let mut pi: usize = pstart;
    let mut si: usize = sstart;
    while pi < plen && si < slen
        invariant
            plen == pattern.len(),
            slen == string.len(),
            pstart <= pi <= plen,
            sstart <= si <= slen,
            goal == matches_from(pattern@.skip(pi as int), string@.skip(si as int)),
        decreases plen - pi,
    {
        let ghost p = pattern@.skip(pi as int);
        let ghost s = string@.skip(si as int);
        let c = pattern[pi];
        assert(p[0] == c);
        assert(p.skip(1) =~= pattern@.skip(pi + 1));
        assert(s.skip(1) =~= string@.skip(si + 1));
        if c == STAR {
            while pi + 1 < plen && pattern[pi + 1] == STAR
                invariant
                    plen == pattern.len(),
                    pstart <= pi < plen,
                    pattern@[pi as int] == STAR,
                    goal == matches_from(pattern@.skip(pi as int), string@.skip(si as int)),
                decreases plen - pi,
            {
                proof {
                    let q = pattern@.skip(pi as int);
                    assert(q[0] == STAR && q[1] == STAR);
                    assert(q.skip(1) =~= pattern@.skip(pi + 1));
                    lemma_star_collapse(q, string@.skip(si as int));
                }
                pi += 1;
            }
            if pi + 1 == plen {
                proof {
                    let q = pattern@.skip(pi as int);
                    assert(q.len() == 1 && q[0] == STAR);
                    lemma_star_matches_all(q, string@.skip(si as int));
                }
                return true;
            }
            let ghost star = pattern@.skip(pi as int);
            let ghost rest = pattern@.skip(pi + 1);
            assert(star.skip(1) =~= rest);
            assert(star[0] == STAR);
            assert(rest[0] != STAR);
            while si < slen
                invariant
                    plen == pattern.len(),
                    slen == string.len(),
                    pstart <= pi,
                    pi + 1 < plen,
                    sstart <= si <= slen,
                    star == pattern@.skip(pi as int),
                    rest == pattern@.skip(pi + 1),
                    star.skip(1) == rest,
                    star.len() > 0,
                    star[0] == STAR,
                    goal == matches_from(star, string@.skip(si as int)),
                decreases slen - si,
            {
                if glob_at(pattern, pi + 1, string, si) {
                    return true;
                }
                assert(string@.skip(si as int).skip(1) =~= string@.skip(si + 1));
                si += 1;
            }
            proof {
                assert(string@.skip(si as int) =~= Seq::<u8>::empty());
                lemma_matches_empty_input(rest);
            }
            return false;
        } else if c == QUESTION {
            pi += 1;
            si += 1;
        } else if c == OPEN_BRACKET {
            let head = string[si];
            assert(s[0] == head);
            let mut j: usize = pi + 1;
            let mut negated = false;
            if j < plen && pattern[j] == CARET {
                negated = true;
                j += 1;
            }
            let ghost body = class_body(p);
            assert(negated == class_negated(p));
            assert(body =~= pattern@.skip(j as int));
            let mut found = false;
            let mut closed = false;
            while j < plen && !closed
                invariant
                    plen == pattern.len(),
                    pi < j <= plen,
                    class_tail(body) == if closed {
                        Some(pattern@.skip(j as int))
                    } else {
                        class_tail(pattern@.skip(j as int))
                    },
                    class_members(body, head) == (found || (!closed && class_members(
                        pattern@.skip(j as int),
                        head,
                    ))),
                decreases plen - j + if closed { 0int } else { 1int },
            {
                let ghost q = pattern@.skip(j as int);
                let h = pattern[j];
                assert(q[0] == h);
                if h == BACKSLASH {
                    if j + 1 == plen {
                        assert(q.len() == 1);
                        return false;
                    }
                    assert(q[1] == pattern@[j + 1]);
                    assert(q.skip(2) =~= pattern@.skip(j + 2));
                    if pattern[j + 1] == head {
                        found = true;
                    }
                    j += 2;
                } else if h == CLOSE_BRACKET {
                    assert(q.skip(1) =~= pattern@.skip(j + 1));
                    closed = true;
                    j += 1;
                } else if plen - j >= 3 && pattern[j + 1] == DASH {
                    assert(q[1] == pattern@[j + 1]);
                    assert(q[2] == pattern@[j + 2]);
                    assert(q.skip(3) =~= pattern@.skip(j + 3));
                    let lo = pattern[j];
                    let hi = pattern[j + 2];
                    if (lo <= head && head <= hi) || (hi <= head && head <= lo) {
                        found = true;
                    }
                    j += 3;
                } else {
                    assert(q.len() >= 3 ==> q[1] == pattern@[j + 1]);
                    assert(q.skip(1) =~= pattern@.skip(j + 1));
                    if h == head {
                        found = true;
                    }
                    j += 1;
                }
            }
            assert(class_tail(body) == Some(pattern@.skip(j as int)));
            if found == negated {
                return false;
            }
            pi = j;
            si += 1;
        } else if c == BACKSLASH && pi + 1 < plen {
            assert(p[1] == pattern@[pi + 1]);
            assert(p.skip(2) =~= pattern@.skip(pi + 2));
            if pattern[pi + 1] != string[si] {
                return false;
            }
            pi += 2;
            si += 1;
        } else {
            if c != string[si] {
                return false;
            }
            pi += 1;
            si += 1;
        }
    }
    if pi == plen {
        assert(pattern@.skip(pi as int).len() == 0);
        return si == slen;
    }
    assert(string@.skip(si as int) =~= Seq::<u8>::empty());
    proof {
        lemma_matches_empty_input(pattern@.skip(pi as int));
    }
    while pi < plen && pattern[pi] == STAR
        invariant
            plen == pattern.len(),
            pi <= plen,
            all_stars(pattern@.skip(pi as int)) == goal,
        decreases plen - pi,
    {
        proof {
            let q = pattern@.skip(pi as int);
            let q1 = pattern@.skip(pi + 1);
            assert(q.skip(1) =~= q1);
            if all_stars(q1) {
                assert forall|i: int| 0 <= i < q.len() implies #[trigger] q[i] == STAR by {
                    if i > 0 {
                        assert(q1[i - 1] == q[i]);
                    }
                }
            } else {
                let i = choose|i: int| 0 <= i < q1.len() && q1[i] != STAR;
                assert(q[i + 1] != STAR);
            }
        }
        pi += 1;
    }
    if pi < plen {
        assert(pattern@.skip(pi as int)[0] != STAR);
    }
    pi == plen
}

/// Whether `pattern` matches `string`.
pub fn glob(pattern: &[u8], string: &[u8]) -> (r: bool)
    ensures
        r == glob_matches(pattern@, string@),
{
    if string.len() == 0 {
        return pattern.len() == 0;
    }
    assert(pattern@.skip(0) =~= pattern@);
    assert(string@.skip(0) =~= string@);
    glob_at(pattern, 0, string, 0)
}

} // verus!

//! Lexicographic order on character sequences, the order in which terms are kept.
use vstd::prelude::*;

use crate::text::chars_of;

verus! {

/// `a` sorts strictly before `b`, comparing code points from the left; a proper prefix
/// sorts first. This is the order of `String`, whose UTF-8 bytes keep code point order.
pub open spec fn lex_lt(a: Seq<char>, b: Seq<char>) -> bool
    decreases a.len(),
{
    if a.len() == 0 {
        b.len() > 0
    } else if b.len() == 0 {
        false
    } else if a[0] != b[0] {
        (a[0] as u32) < (b[0] as u32)
    } else {
        lex_lt(a.drop_first(), b.drop_first())
    }
}

pub proof fn lemma_lex_irreflexive(a: Seq<char>)
    ensures
        !lex_lt(a, a),
    decreases a.len(),
{
    if a.len() > 0 {
        lemma_lex_irreflexive(a.drop_first());
    }
}

pub proof fn lemma_lex_asymmetric(a: Seq<char>, b: Seq<char>)
    ensures
        !(lex_lt(a, b) && lex_lt(b, a)),
    decreases a.len(),
{
    if a.len() > 0 && b.len() > 0 && a[0] == b[0] {
        lemma_lex_asymmetric(a.drop_first(), b.drop_first());
    }
}

pub proof fn lemma_lex_transitive(a: Seq<char>, b: Seq<char>, c: Seq<char>)
    requires
        lex_lt(a, b),
        lex_lt(b, c),
    ensures
        lex_lt(a, c),
    decreases a.len(),
{
    if a.len() > 0 && b.len() > 0 && c.len() > 0 {
        if a[0] == b[0] && b[0] == c[0] {
            lemma_lex_transitive(a.drop_first(), b.drop_first(), c.drop_first());
        }
    }
}

pub proof fn lemma_lex_total(a: Seq<char>, b: Seq<char>)
    ensures
        a == b || lex_lt(a, b) || lex_lt(b, a),
    decreases a.len(),
{
    if a.len() == 0 && b.len() == 0 {
        assert(a =~= b);
    } else if a.len() > 0 && b.len() > 0 {
        if a[0] == b[0] {
            lemma_lex_total(a.drop_first(), b.drop_first());
            if a.drop_first() == b.drop_first() {
                assert(a =~= seq![a[0]] + a.drop_first());
                assert(b =~= seq![b[0]] + b.drop_first());
            }
        } else {
            if (a[0] as u32) == (b[0] as u32) {
                vstd::utf8::char_u32_cast(a[0], a[0] as u32);
                vstd::utf8::char_u32_cast(b[0], b[0] as u32);
            }
        }
    }
}

/// A string sorts no earlier than each of its prefixes.
pub proof fn lemma_prefix_not_after(p: Seq<char>, t: Seq<char>)
    requires
        p.is_prefix_of(t),
    ensures
        !lex_lt(t, p),
    decreases p.len(),
{
    if p.len() > 0 {
        assert(t[0] == t.subrange(0, p.len() as int)[0]);
        assert(p.drop_first().is_prefix_of(t.drop_first())) by {
            assert(t.drop_first().subrange(0, p.len() - 1) =~= t.subrange(0, p.len() as int).drop_first());
        }
        lemma_prefix_not_after(p.drop_first(), t.drop_first());
    }
}

/// A string that sorts no earlier than `p` but does not start with it sorts after every
/// string that starts with `p`.
pub proof fn lemma_prefix_block(p: Seq<char>, k: Seq<char>, t: Seq<char>)
    requires
        !lex_lt(k, p),
        !p.is_prefix_of(k),
        p.is_prefix_of(t),
    ensures
        lex_lt(t, k),
    decreases p.len(),
{
    if p.len() == 0 {
        assert(k.subrange(0, 0) =~= p);
    } else {
        assert(t[0] == t.subrange(0, p.len() as int)[0]);
        if k[0] != p[0] {
            if (k[0] as u32) == (p[0] as u32) {
                vstd::utf8::char_u32_cast(k[0], k[0] as u32);
                vstd::utf8::char_u32_cast(p[0], p[0] as u32);
            }
        } else {
            assert(p.drop_first().is_prefix_of(t.drop_first())) by {
                assert(t.drop_first().subrange(0, p.len() - 1) =~= t.subrange(0, p.len() as int).drop_first());
            }
            if p.drop_first().is_prefix_of(k.drop_first()) {
                assert(k.subrange(0, p.len() as int) =~= seq![k[0]] + k.drop_first().subrange(0, p.len() - 1));
                assert(p =~= seq![p[0]] + p.drop_first());
            }
            lemma_prefix_block(p.drop_first(), k.drop_first(), t.drop_first());
        }
    }
}

/// Exact lexicographic comparison of two strings.
pub fn str_lt(a: &str, b: &str) -> (r: bool)
    ensures
        r == lex_lt(a@, b@),
{
    let ac = chars_of(a);
    let bc = chars_of(b);
    let mut i: usize = 0;
    assert(a@.skip(0) =~= a@);
    assert(b@.skip(0) =~= b@);
    while i < ac.len() && i < bc.len() && ac[i] == bc[i]
        invariant
            ac@ == a@,
            bc@ == b@,
            0 <= i <= ac@.len(),
            i <= bc@.len(),
            lex_lt(a@, b@) == lex_lt(a@.skip(i as int), b@.skip(i as int)),
        decreases ac.len() - i,
    {
        proof {
            let sa = a@.skip(i as int);
            let sb = b@.skip(i as int);
            assert(sa.drop_first() =~= a@.skip(i + 1));
            assert(sb.drop_first() =~= b@.skip(i + 1));
        }
        i = i + 1;
    }
    if i == ac.len() {
        i < bc.len()
    } else if i == bc.len() {
        false
    } else {
        (ac[i] as u32) < (bc[i] as u32)
    }
}

} // verus!

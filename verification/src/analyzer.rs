use vstd::prelude::*;

use crate::text::{chars_of, spec_is_alphanumeric, spec_to_lowercase};

verus! {

/// The maximal runs of alphanumeric characters of `s`, in order, before case folding.
pub open spec fn raw_tokens(s: Seq<char>) -> Seq<Seq<char>>
    decreases s.len(),
{
    if s.len() == 0 {
        seq![]
    } else {
        let p = s.drop_last();
        let c = s.last();
        let prev = raw_tokens(p);
        if !spec_is_alphanumeric(c) {
            prev
        } else if p.len() > 0 && spec_is_alphanumeric(p.last()) {
            prev.update(prev.len() - 1, prev.last().push(c))
        } else {
            prev.push(seq![c])
        }
    }
}

/// The tokens of `s`: each alphanumeric run, lowercased.
pub open spec fn tokens(s: Seq<char>) -> Seq<Seq<char>> {
    raw_tokens(s).map_values(|t: Seq<char>| spec_to_lowercase(t))
}

/// The tokens of `s`, each paired with its position counted from `offset`.
pub open spec fn positioned_tokens(s: Seq<char>, offset: int) -> Seq<(Seq<char>, int)> {
    tokens(s).map(|i: int, t: Seq<char>| (t, offset + i))
}

/// The character sequences of a vector of strings.
pub open spec fn strings_view(v: Seq<String>) -> Seq<Seq<char>> {
    v.map_values(|s: String| s@)
}

/// A run that ends in an alphanumeric character has produced at least one token.
proof fn lemma_raw_tokens_nonempty(s: Seq<char>)
    requires
        s.len() > 0,
        spec_is_alphanumeric(s.last()),
    ensures
        raw_tokens(s).len() > 0,
        raw_tokens(s).last().len() > 0,
    decreases s.len(),
{
    let p = s.drop_last();
    if p.len() > 0 && spec_is_alphanumeric(p.last()) {
        lemma_raw_tokens_nonempty(p);
    }
}

proof fn lemma_push_lowered(v: Seq<String>, raws: Seq<Seq<char>>, low: String, t: Seq<char>)
    requires
        strings_view(v) == raws.map_values(|t: Seq<char>| spec_to_lowercase(t)),
        low@ == spec_to_lowercase(t),
    ensures
        strings_view(v.push(low)) == raws.push(t).map_values(|t: Seq<char>| spec_to_lowercase(t)),
{
    let lhs = strings_view(v.push(low));
    let rhs = raws.push(t).map_values(|t: Seq<char>| spec_to_lowercase(t));
    let old_l = strings_view(v);
    let old_r = raws.map_values(|t: Seq<char>| spec_to_lowercase(t));
    assert(old_l.len() == v.len());
    assert(old_r.len() == raws.len());
    assert forall|k: int| 0 <= k < lhs.len() implies lhs[k] == rhs[k] by {
        if k < v.len() {
            assert(lhs[k] == v[k]@);
            assert(old_l[k] == v[k]@);
            assert(old_r[k] == spec_to_lowercase(raws[k]));
            assert(rhs[k] == spec_to_lowercase(raws[k]));
        } else {
            assert(lhs[k] == low@);
        }
    }
    assert(lhs =~= rhs);
}

/// Every token is non-empty.
pub proof fn lemma_raw_tokens_non_empty_items(s: Seq<char>)
    ensures
        forall|k: int| 0 <= k < raw_tokens(s).len() ==> #[trigger] raw_tokens(s)[k].len() > 0,
    decreases s.len(),
{
    if s.len() > 0 {
        let p = s.drop_last();
        lemma_raw_tokens_non_empty_items(p);
        let prev = raw_tokens(p);
        let cur = raw_tokens(s);
        let c = s.last();
        if !spec_is_alphanumeric(c) {
            assert(cur == prev);
        } else if p.len() > 0 && spec_is_alphanumeric(p.last()) {
            lemma_raw_tokens_nonempty(p);
            assert(cur == prev.update(prev.len() - 1, prev.last().push(c)));
            assert forall|k: int| 0 <= k < cur.len() implies #[trigger] cur[k].len() > 0 by {
                if k < prev.len() - 1 {
                    assert(cur[k] == prev[k]);
                } else {
                    assert(cur[k] == prev.last().push(c));
                }
            }
        } else {
            assert(cur == prev.push(seq![c]));
            assert forall|k: int| 0 <= k < cur.len() implies #[trigger] cur[k].len() > 0 by {
                if k < prev.len() {
                    assert(cur[k] == prev[k]);
                } else {
                    assert(cur[k] == seq![c]);
                }
            }
        }
    }
}

/// The characters of the tokens of `s`, one after the other.
pub open spec fn flatten_tokens(ts: Seq<Seq<char>>) -> Seq<char>
    decreases ts.len(),
{
    if ts.len() == 0 {
        seq![]
    } else {
        flatten_tokens(ts.drop_last()) + ts.last()
    }
}

/// Text is split at every non-alphanumeric character: every character of every raw
/// token is alphanumeric, and the raw tokens, one after the other, are exactly the
/// alphanumeric characters of `s`, in order.
pub proof fn lemma_raw_tokens_alphanumeric(s: Seq<char>)
    ensures
        forall|k: int, j: int|
            0 <= k < raw_tokens(s).len() && 0 <= j < raw_tokens(s)[k].len() ==> spec_is_alphanumeric(
                #[trigger] raw_tokens(s)[k][j],
            ),
        flatten_tokens(raw_tokens(s)) == s.filter(|c: char| spec_is_alphanumeric(c)),
    decreases s.len(),
{
    reveal(Seq::filter);
    let f = |c: char| spec_is_alphanumeric(c);
    if s.len() == 0 {
        assert(s.filter(f) =~= Seq::<char>::empty());
    } else {
        let p = s.drop_last();
        let c = s.last();
        lemma_raw_tokens_alphanumeric(p);
        let prev = raw_tokens(p);
        let cur = raw_tokens(s);
        assert(s.filter(f) == if f(c) { p.filter(f).push(c) } else { p.filter(f) });
        if !spec_is_alphanumeric(c) {
            assert(cur == prev);
        } else if p.len() > 0 && spec_is_alphanumeric(p.last()) {
            lemma_raw_tokens_nonempty(p);
            assert(cur == prev.update(prev.len() - 1, prev.last().push(c)));
            assert forall|k: int, j: int| 0 <= k < cur.len() && 0 <= j < cur[k].len() implies spec_is_alphanumeric(
                #[trigger] cur[k][j],
            ) by {
                if k < prev.len() - 1 {
                    assert(cur[k] == prev[k]);
                } else {
                    assert(cur[k] == prev.last().push(c));
                    if j < prev.last().len() {
                        assert(cur[k][j] == prev[prev.len() - 1][j]);
                    }
                }
            }
            assert(cur.drop_last() =~= prev.drop_last());
            assert(prev =~= prev.drop_last().push(prev.last()));
            assert(flatten_tokens(prev) == flatten_tokens(prev.drop_last()) + prev.last());
            assert(flatten_tokens(cur) == flatten_tokens(prev.drop_last()) + prev.last().push(c));
            assert(flatten_tokens(cur) =~= flatten_tokens(prev).push(c));
        } else {
            assert(cur == prev.push(seq![c]));
            assert forall|k: int, j: int| 0 <= k < cur.len() && 0 <= j < cur[k].len() implies spec_is_alphanumeric(
                #[trigger] cur[k][j],
            ) by {
                if k < prev.len() {
                    assert(cur[k] == prev[k]);
                } else {
                    assert(cur[k] == seq![c]);
                }
            }
            assert(cur.drop_last() =~= prev);
            assert(flatten_tokens(cur) =~= flatten_tokens(prev).push(c));
        }
    }
}

/// Every non-alphanumeric character separates tokens: the raw tokens of text with such
/// a character between `a` and `b` are those of `a` followed by those of `b`.
pub proof fn lemma_raw_tokens_split(a: Seq<char>, c: char, b: Seq<char>)
    requires
        !spec_is_alphanumeric(c),
    ensures
        raw_tokens(a.push(c) + b) == raw_tokens(a) + raw_tokens(b),
    decreases b.len(),
{
    let s = a.push(c) + b;
    if b.len() == 0 {
        assert(s =~= a.push(c));
        assert(a.push(c).drop_last() =~= a);
        assert(raw_tokens(b) =~= Seq::<Seq<char>>::empty());
        assert(raw_tokens(a) + raw_tokens(b) =~= raw_tokens(a));
    } else {
        let b0 = b.drop_last();
        let x = b.last();
        lemma_raw_tokens_split(a, c, b0);
        let s0 = a.push(c) + b0;
        assert(s.drop_last() =~= s0);
        assert(s.last() == x);
        let ra = raw_tokens(a);
        let rb0 = raw_tokens(b0);
        assert(s0.len() > 0 && s0.last() == (if b0.len() > 0 { b0.last() } else { c }));
        if !spec_is_alphanumeric(x) {
            assert(raw_tokens(s) == raw_tokens(s0));
            assert(raw_tokens(b) == rb0);
        } else if b0.len() > 0 && spec_is_alphanumeric(b0.last()) {
            lemma_raw_tokens_nonempty(b0);
            assert(raw_tokens(b) == rb0.update(rb0.len() - 1, rb0.last().push(x)));
            assert(raw_tokens(s) == (ra + rb0).update((ra + rb0).len() - 1, (ra + rb0).last().push(x)));
            assert((ra + rb0).last() == rb0.last());
            assert(raw_tokens(s) =~= ra + raw_tokens(b));
        } else {
            assert(raw_tokens(b) == rb0.push(seq![x]));
            assert(raw_tokens(s) == (ra + rb0).push(seq![x]));
            assert(raw_tokens(s) =~= ra + raw_tokens(b));
        }
    }
}

/// A run of alphanumeric characters is one token.
pub proof fn lemma_raw_tokens_one_run(s: Seq<char>)
    requires
        s.len() > 0,
        forall|i: int| 0 <= i < s.len() ==> spec_is_alphanumeric(#[trigger] s[i]),
    ensures
        raw_tokens(s) == seq![s],
    decreases s.len(),
{
    let p = s.drop_last();
    if p.len() == 0 {
        assert(raw_tokens(p) =~= Seq::<Seq<char>>::empty());
        assert(seq![s.last()] =~= s);
    } else {
        assert forall|i: int| 0 <= i < p.len() implies spec_is_alphanumeric(#[trigger] p[i]) by {
            assert(p[i] == s[i]);
        }
        lemma_raw_tokens_one_run(p);
        assert(spec_is_alphanumeric(p.last())) by {
            assert(p.last() == s[s.len() - 2]);
        }
        assert(spec_is_alphanumeric(s.last())) by {
            assert(s.last() == s[s.len() - 1]);
        }
        assert(p.push(s.last()) =~= s);
    }
}

/// Text analyzer that converts raw text into normalized, searchable tokens.
///
/// The analysis pipeline:
/// 1. Split on any non-alphanumeric character boundary
/// 2. Filter out empty fragments (from consecutive delimiters)
/// 3. Lowercase every token
pub struct Analyzer;

impl Analyzer {
    /// Analyze the given text and return a list of normalized tokens.
    pub fn analyze(text: &str) -> (result: Vec<String>)
        ensures
            strings_view(result@) == tokens(text@),
    {
        let chars = chars_of(text);
        let mut result: Vec<String> = Vec::new();
        let mut cur = String::new();
        let ghost mut raws: Seq<Seq<char>> = seq![];
        let mut i: usize = 0;
        while i < chars.len()
            invariant
                chars@ == text@,
                0 <= i <= chars@.len(),
                cur@.len() > 0 <==> (i > 0 && spec_is_alphanumeric(text@[i - 1])),
                raw_tokens(text@.take(i as int)) == (if cur@.len() > 0 {
                    raws.push(cur@)
                } else {
                    raws
                }),
                strings_view(result@) == raws.map_values(|t: Seq<char>| spec_to_lowercase(t)),
            decreases chars.len() - i,
        {
            let c = chars[i];
            let ghost p = text@.take(i as int);
            let ghost prev_cur = cur@;
            assert(text@.take(i + 1).drop_last() =~= p);
            assert(text@.take(i + 1).last() == c);
            assert(i > 0 ==> p.last() == text@[i - 1]);
            if c.is_alphanumeric() {
                proof {
                    if prev_cur.len() == 0 {
                        assert(prev_cur =~= seq![]);
                    }
                }
                cur.push(c);
                assert(prev_cur.push(c) == cur@);
            } else if !cur.as_str().is_empty() {
                let low = cur.as_str().to_lowercase();
                proof {
                    lemma_push_lowered(result@, raws, low, cur@);
                    raws = raws.push(cur@);
                }
                result.push(low);
                cur = String::new();
            }
            i = i + 1;
        }
        if !cur.as_str().is_empty() {
            let low = cur.as_str().to_lowercase();
            proof {
                lemma_push_lowered(result@, raws, low, cur@);
                raws = raws.push(cur@);
            }
            result.push(low);
        }
        assert(text@.take(chars@.len() as int) == text@);
        result
    }

    /// Analyze text and return tokens paired with their 0-based positions.
    ///
    /// Each token is assigned a sequential position starting from `offset`.
    /// This is used during indexing to record where terms appear in a document,
    /// enabling phrase search (positional matching).
    pub fn analyze_with_positions(text: &str, offset: u32) -> (result: Vec<(String, u32)>)
        requires
            offset + tokens(text@).len() <= u32::MAX + 1,
        ensures
            result@.len() == tokens(text@).len(),
            forall|i: int|
                0 <= i < result@.len() ==> (#[trigger] result@[i]).0@ == tokens(text@)[i]
                    && result@[i].1 == offset + i,
    {
        let toks = Self::analyze(text);
        let mut result: Vec<(String, u32)> = Vec::new();
        let mut i: usize = 0;
        while i < toks.len()
            invariant
                strings_view(toks@) == tokens(text@),
                offset + toks@.len() <= u32::MAX + 1,
                0 <= i <= toks@.len(),
                result@.len() == i,
                forall|k: int|
                    0 <= k < i ==> (#[trigger] result@[k]).0@ == tokens(text@)[k]
                        && result@[k].1 == offset + k,
            decreases toks.len() - i,
        {
            assert(strings_view(toks@)[i as int] == toks@[i as int]@);
            let t = toks[i].clone();
            result.push((t, offset + i as u32));
            i = i + 1;
        }
        result
    }
}

} // verus!

//! LIKE patterns: `_` matches exactly one character, `%` matches a run of
//! characters, anything else matches itself literally.

use vstd::prelude::*;
use crate::value::str_chars;

verus! {

/// One token of a LIKE pattern: a wildcard, or a maximal run of literal
/// characters.
#[derive(Clone, Debug, PartialEq)]
pub enum LikeType {
    Underscore,
    Percent,
    Str(Vec<char>),
}

/// Model of a token.
pub enum LikeTypeV {
    Underscore,
    Percent,
    Str(Seq<char>),
}

impl View for LikeType {
    type V = LikeTypeV;

    open spec fn view(&self) -> LikeTypeV {
        match self {
            LikeType::Underscore => LikeTypeV::Underscore,
            LikeType::Percent => LikeTypeV::Percent,
            LikeType::Str(s) => LikeTypeV::Str(s@),
        }
    }
}

/// The models of a token list.
pub open spec fn toks_view(s: Seq<LikeType>) -> Seq<LikeTypeV> {
    s.map_values(|t: LikeType| t@)
}

/// Length of the leading run of literal (non-wildcard) characters.
pub open spec fn lit_run(p: Seq<char>) -> nat
    decreases p.len(),
{
    if p.len() == 0 || p[0] == '_' || p[0] == '%' {
        0
    } else {
        (1 + lit_run(p.skip(1))) as nat
    }
}

/// The tokens of a LIKE pattern: one per wildcard, one per maximal run of
/// literal characters between wildcards.
pub open spec fn spec_tokenize(p: Seq<char>) -> Seq<LikeTypeV>
    decreases p.len() via spec_tokenize_decreases
{
    if p.len() == 0 {
        Seq::empty()
    } else if p[0] == '_' {
        seq![LikeTypeV::Underscore] + spec_tokenize(p.skip(1))
    } else if p[0] == '%' {
        seq![LikeTypeV::Percent] + spec_tokenize(p.skip(1))
    } else {
        seq![LikeTypeV::Str(p.take(lit_run(p) as int))] + spec_tokenize(p.skip(lit_run(p) as int))
    }
}

/// The literal run never reaches past the end of the pattern.
pub proof fn lemma_lit_run_le(p: Seq<char>)
    ensures
        lit_run(p) <= p.len(),
    decreases p.len(),
{
    if !(p.len() == 0 || p[0] == '_' || p[0] == '%') {
        lemma_lit_run_le(p.skip(1));
    }
}

#[via_fn]
proof fn spec_tokenize_decreases(p: Seq<char>) {
    if p.len() > 0 && p[0] != '_' && p[0] != '%' {
        lemma_lit_run_le(p.skip(1));
        assert(lit_run(p) == 1 + lit_run(p.skip(1)));
    }
}

/// The matcher: empty text needs an empty pattern; `_` consumes one
/// character; a trailing `%` accepts any remaining (nonempty) text, while an
/// inner `%` must consume a nonempty proper prefix of it; a literal run must
/// stand at the front and is consumed whole.
pub open spec fn like_match(p: Seq<LikeTypeV>, t: Seq<char>) -> bool
    decreases p.len() + t.len(),
{
    if t.len() == 0 {
        p.len() == 0
    } else if p.len() == 0 {
        false
    } else {
        match p[0] {
            LikeTypeV::Underscore => like_match(p.skip(1), t.skip(1)),
            LikeTypeV::Percent => p.len() == 1 || (exists|i: int|
                1 <= i < t.len() && like_match(p.skip(1), t.skip(i))),
            LikeTypeV::Str(s) => t.len() >= s.len() && t.take(s.len() as int) == s
                && like_match(p.skip(1), t.skip(s.len() as int)),
        }
    }
}

/// Does `s` stand in `text` at position `ti`?
fn lit_starts(text: &Vec<char>, ti: usize, s: &Vec<char>) -> (r: bool)
    requires
        ti <= text.len(),
    ensures
        r == (text@.len() - ti >= s@.len() && text@.skip(ti as int).take(s@.len() as int) == s@),
{
    let tn = text.len();
    let sn = s.len();
    if tn - ti < sn {
        return false;
    }
    let mut k: usize = 0;
    while k < sn
        invariant
            tn == text@.len(),
            sn == s@.len(),
            ti + sn <= tn,
            k <= sn,
            forall|m: int| 0 <= m < k ==> text@[ti + m] == s@[m],
        decreases sn - k,
    {
        if text[ti + k] != s[k] {
            proof {
                let l = text@.skip(ti as int).take(s@.len() as int);
                assert(l[k as int] == text@[ti + k]);
            }
            return false;
        }
        k += 1;
    }
    proof {
        assert(text@.skip(ti as int).take(s@.len() as int) =~= s@);
    }
    true
}

/// The backtracking matcher, on the remaining tokens and remaining text.
fn like_at(p: &Vec<LikeType>, pi: usize, text: &Vec<char>, ti: usize) -> (r: bool)
    requires
        pi <= p.len(),
        ti <= text.len(),
    ensures
        r == like_match(toks_view(p@).skip(pi as int), text@.skip(ti as int)),
    decreases p.len() - pi + text.len() - ti,
{
    let ghost pv = toks_view(p@).skip(pi as int);
    let ghost tv = text@.skip(ti as int);
    if ti == text.len() {
        return pi == p.len();
    }
    if pi == p.len() {
        return false;
    }
    proof {
        assert(pv[0] == p@[pi as int]@);
    }
    match &p[pi] {
        LikeType::Underscore => {
            proof {
                assert(pv.skip(1) =~= toks_view(p@).skip(pi + 1));
                assert(tv.skip(1) =~= text@.skip(ti + 1));
            }
            like_at(p, pi + 1, text, ti + 1)
        },
        LikeType::Percent => {
            if pi + 1 == p.len() {
                return true;
            }
            let mut i: usize = ti + 1;
            while i < text.len()
                invariant
                    ti < i <= text@.len(),
                    pi + 1 < p@.len(),
                    pv == toks_view(p@).skip(pi as int),
                    tv == text@.skip(ti as int),
                    pv[0] == LikeTypeV::Percent,
                    forall|j: int|
                        ti < j < i ==> !like_match(
                            toks_view(p@).skip(pi + 1),
                            #[trigger] text@.skip(j),
                        ),
                decreases text@.len() - i,
            {
                if like_at(p, pi + 1, text, i) {
                    proof {
                        assert(pv.skip(1) =~= toks_view(p@).skip(pi + 1));
                        assert(tv.skip(i - ti) =~= text@.skip(i as int));
                        assert(1 <= i - ti < tv.len() && like_match(
                            pv.skip(1),
                            tv.skip(i - ti),
                        ));
                        assert(pv[0] == LikeTypeV::Percent);
                        assert(like_match(pv, tv));
                    }
                    return true;
                }
                i += 1;
            }
            proof {
                assert forall|j: int| 1 <= j < tv.len() implies !like_match(
                    pv.skip(1),
                    #[trigger] tv.skip(j),
                ) by {
                    assert(tv.skip(j) =~= text@.skip(ti + j));
                    assert(pv.skip(1) =~= toks_view(p@).skip(pi + 1));
                    assert(!like_match(toks_view(p@).skip(pi + 1), text@.skip(ti + j)));
                }
            }
            false
        },
        LikeType::Str(s) => {
            proof {
                assert(tv.take(s@.len() as int) =~= text@.skip(ti as int).take(s@.len() as int));
            }
            if !lit_starts(text, ti, s) {
                return false;
            }
            proof {
                assert(pv.skip(1) =~= toks_view(p@).skip(pi + 1));
                assert(tv.skip(s@.len() as int) =~= text@.skip(ti + s@.len()));
            }
            like_at(p, pi + 1, text, ti + s.len())
        },
    }
}

/// Does the token list consume the whole text?
pub fn like(pattern: &Vec<LikeType>, target: &Vec<char>) -> (r: bool)
    ensures
        r == like_match(toks_view(pattern@), target@),
{
    proof {
        assert(toks_view(pattern@).skip(0) =~= toks_view(pattern@));
        assert(target@.skip(0) =~= target@);
    }
    like_at(pattern, 0, target, 0)
}

/// The leading literal run is exactly the characters before the first
/// wildcard.
proof fn lemma_lit_run_val(p: Seq<char>, k: int)
    requires
        0 <= k <= p.len(),
        forall|m: int| 0 <= m < k ==> p[m] != '%' && p[m] != '_',
        k == p.len() || p[k] == '%' || p[k] == '_',
    ensures
        lit_run(p) == k,
    decreases k,
{
    if k > 0 {
        lemma_lit_run_val(p.skip(1), k - 1);
    }
}

/// Splits a LIKE pattern into its tokens.
pub fn tokenize(pattern: &str) -> (r: Vec<LikeType>)
    ensures
        toks_view(r@) == spec_tokenize(pattern@),
{
    let chars = str_chars(pattern);
    let mut toks: Vec<LikeType> = Vec::new();
    let mut idx: usize = 0;
    proof {
        assert(pattern@.skip(0) =~= pattern@);
        assert(toks_view(toks@).len() == 0);
        assert(toks_view(toks@) + spec_tokenize(pattern@) =~= spec_tokenize(pattern@));
    }
    while idx < chars.len()
        invariant
            idx <= chars@.len(),
            chars@ == pattern@,
            spec_tokenize(pattern@) == toks_view(toks@) + spec_tokenize(pattern@.skip(idx as int)),
        decreases chars@.len() - idx,
    {
        let ghost old_toks = toks@;
        let c = chars[idx];
        if c == '_' {
            toks.push(LikeType::Underscore);
            idx += 1;
            proof {
                let rest = pattern@.skip(idx - 1);
                assert(rest[0] == '_');
                assert(rest.skip(1) =~= pattern@.skip(idx as int));
                assert(toks_view(toks@) =~= toks_view(old_toks).push(LikeTypeV::Underscore));
                assert(toks_view(old_toks) + (seq![LikeTypeV::Underscore] + spec_tokenize(
                    pattern@.skip(idx as int),
                )) =~= toks_view(toks@) + spec_tokenize(pattern@.skip(idx as int)));
            }
        } else if c == '%' {
            toks.push(LikeType::Percent);
            idx += 1;
            proof {
                let rest = pattern@.skip(idx - 1);
                assert(rest[0] == '%');
                assert(rest.skip(1) =~= pattern@.skip(idx as int));
                assert(toks_view(toks@) =~= toks_view(old_toks).push(LikeTypeV::Percent));
                assert(toks_view(old_toks) + (seq![LikeTypeV::Percent] + spec_tokenize(
                    pattern@.skip(idx as int),
                )) =~= toks_view(toks@) + spec_tokenize(pattern@.skip(idx as int)));
            }
        } else {
            let start = idx;
            let mut s: Vec<char> = Vec::new();
            s.push(c);
            idx += 1;
            while idx < chars.len() && chars[idx] != '%' && chars[idx] != '_'
                invariant
                    start < idx <= chars@.len(),
                    chars@ == pattern@,
                    s@ == chars@.subrange(start as int, idx as int),
                    forall|m: int| start <= m < idx ==> chars@[m] != '%' && chars@[m] != '_',
                decreases chars@.len() - idx,
            {
                s.push(chars[idx]);
                idx += 1;
                proof {
                    assert(s@ =~= chars@.subrange(start as int, idx as int));
                }
            }
            proof {
                let rest = pattern@.skip(start as int);
                lemma_lit_run_val(rest, idx - start);
                assert(rest.take(idx - start) =~= s@);
                assert(rest.skip(idx - start) =~= pattern@.skip(idx as int));
            }
            toks.push(LikeType::Str(s));
            proof {
                assert(toks_view(toks@) =~= toks_view(old_toks).push(
                    LikeTypeV::Str(s@),
                ));
                assert(toks_view(old_toks) + (seq![LikeTypeV::Str(s@)] + spec_tokenize(
                    pattern@.skip(idx as int),
                )) =~= toks_view(toks@) + spec_tokenize(pattern@.skip(idx as int)));
            }
        }
    }
    proof {
        assert(pattern@.skip(pattern@.len() as int) =~= Seq::<char>::empty());
        assert(toks_view(toks@) + Seq::<LikeTypeV>::empty() =~= toks_view(toks@));
    }
    toks
}

/// A pattern without wildcards is one literal token.
proof fn lemma_tokenize_literal(p: Seq<char>)
    requires
        p.len() > 0,
        forall|i: int| 0 <= i < p.len() ==> p[i] != '%' && p[i] != '_',
    ensures
        spec_tokenize(p) == seq![LikeTypeV::Str(p)],
{
    lemma_lit_run_val(p, p.len() as int);
    assert(p.take(lit_run(p) as int) =~= p);
    assert(p.skip(lit_run(p) as int) =~= Seq::<char>::empty());
    assert(seq![LikeTypeV::Str(p)] + spec_tokenize(Seq::<char>::empty()) =~= seq![
        LikeTypeV::Str(p),
    ]);
}

/// A lone literal token matches exactly the text equal to it.
proof fn lemma_like_str_token(s: Seq<char>, t: Seq<char>)
    requires
        s.len() > 0,
    ensures
        like_match(seq![LikeTypeV::Str(s)], t) <==> t == s,
{
    let p = seq![LikeTypeV::Str(s)];
    assert(p.skip(1) =~= Seq::<LikeTypeV>::empty());
    if t.len() == 0 {
        assert(!like_match(p, t));
    } else {
        if like_match(p, t) {
            let u = t.skip(s.len() as int);
            assert(t.len() >= s.len() && t.take(s.len() as int) == s && like_match(p.skip(1), u));
            assert(u.len() == 0);
            assert(t.take(t.len() as int) =~= t);
            assert(t == s);
        }
        if t == s {
            assert(t.take(s.len() as int) =~= s);
            assert(t.skip(s.len() as int) =~= Seq::<char>::empty());
            assert(like_match(Seq::<LikeTypeV>::empty(), Seq::<char>::empty()));
            assert(like_match(p.skip(1), t.skip(s.len() as int)));
            assert(like_match(p, t));
        }
    }
}

/// A wildcard-free pattern admits exactly the text equal to it: matching
/// `"apple"` keeps the texts equal to "apple" and no other.
pub proof fn lemma_like_literal(p: Seq<char>, t: Seq<char>)
    requires
        p.len() > 0,
        forall|i: int| 0 <= i < p.len() ==> p[i] != '%' && p[i] != '_',
    ensures
        like_match(spec_tokenize(p), t) <==> t == p,
{
    lemma_tokenize_literal(p);
    lemma_like_str_token(p, t);
}

/// A pattern of underscores alone admits exactly the texts of its length:
/// matching `"______"` keeps the six-character texts and no other.
pub proof fn lemma_like_underscores(p: Seq<char>, t: Seq<char>)
    requires
        forall|i: int| 0 <= i < p.len() ==> p[i] == '_',
    ensures
        like_match(spec_tokenize(p), t) <==> t.len() == p.len(),
    decreases p.len(),
{
    let toks = spec_tokenize(p);
    if p.len() == 0 {
        assert(toks =~= Seq::<LikeTypeV>::empty());
    } else {
        assert(p[0] == '_');
        if t.len() == 0 {
            assert(toks.len() > 0);
            assert(!like_match(toks, t));
        } else {
            assert(toks[0] == LikeTypeV::Underscore);
            assert(toks.skip(1) =~= spec_tokenize(p.skip(1)));
            assert forall|i: int| 0 <= i < p.skip(1).len() implies p.skip(1)[i] == '_' by {
                assert(p.skip(1)[i] == p[i + 1]);
            }
            lemma_like_underscores(p.skip(1), t.skip(1));
            assert(like_match(toks, t) == like_match(toks.skip(1), t.skip(1)));
        }
    }
}

/// Under a leading `%`, a literal tail must close every match: whatever
/// `"%s"` admits ends in "s".
pub proof fn lemma_like_suffix(p: Seq<char>, t: Seq<char>)
    requires
        p.len() >= 2,
        p[0] == '%',
        forall|i: int| 1 <= i < p.len() ==> p[i] != '%' && p[i] != '_',
        like_match(spec_tokenize(p), t),
    ensures
        t.len() > p.len() - 1,
        t.skip(t.len() - (p.len() - 1)) == p.skip(1),
{
    let lit = p.skip(1);
    assert forall|i: int| 0 <= i < lit.len() implies lit[i] != '%' && lit[i] != '_' by {
        assert(lit[i] == p[i + 1]);
    }
    lemma_tokenize_literal(lit);
    let toks = spec_tokenize(p);
    assert(toks =~= seq![LikeTypeV::Percent, LikeTypeV::Str(lit)]);
    assert(t.len() > 0);
    assert(toks[0] == LikeTypeV::Percent);
    assert(exists|i: int| 1 <= i < t.len() && like_match(toks.skip(1), t.skip(i)));
    let i = choose|i: int| 1 <= i < t.len() && like_match(toks.skip(1), t.skip(i));
    assert(toks.skip(1) =~= seq![LikeTypeV::Str(lit)]);
    lemma_like_str_token(lit, t.skip(i));
    assert(t.skip(i) == lit);
    assert(t.len() - i == lit.len());
}

/// Between two `%`s, the literal run must stand somewhere inside every
/// match: whatever `"%ri%"` admits contains "ri".
pub proof fn lemma_like_substring(p: Seq<char>, t: Seq<char>)
    requires
        p.len() >= 3,
        p[0] == '%',
        p[p.len() - 1] == '%',
        forall|i: int| 1 <= i < p.len() - 1 ==> p[i] != '%' && p[i] != '_',
        like_match(spec_tokenize(p), t),
    ensures
        exists|i: int|
            0 <= i && i + p.len() - 2 <= t.len() && #[trigger] t.subrange(i, i + p.len() - 2)
                == p.subrange(1, p.len() - 1),
{
    let lit = p.subrange(1, p.len() - 1);
    let toks = spec_tokenize(p);
    let q = p.skip(1);
    assert(q[0] == p[1]);
    assert(q[0] != '%' && q[0] != '_');
    assert forall|m: int| 0 <= m < q.len() - 1 implies q[m] != '%' && q[m] != '_' by {
        assert(q[m] == p[m + 1]);
    }
    assert(q[q.len() - 1] == p[p.len() - 1]);
    lemma_lit_run_val(q, q.len() - 1);
    assert(q.take(q.len() - 1) =~= lit);
    assert(q.skip(q.len() - 1) =~= seq!['%']);
    assert(seq!['%'][0] == '%');
    assert(seq!['%'].skip(1) =~= Seq::<char>::empty());
    assert(spec_tokenize(Seq::<char>::empty()) == Seq::<LikeTypeV>::empty());
    assert(spec_tokenize(seq!['%']) =~= seq![LikeTypeV::Percent]);
    assert(spec_tokenize(q) =~= seq![LikeTypeV::Str(lit), LikeTypeV::Percent]);
    assert(toks =~= seq![LikeTypeV::Percent, LikeTypeV::Str(lit), LikeTypeV::Percent]);
    assert(t.len() > 0);
    assert(toks[0] == LikeTypeV::Percent);
    assert(exists|i: int| 1 <= i < t.len() && like_match(toks.skip(1), t.skip(i)));
    let i1 = choose|i: int| 1 <= i < t.len() && like_match(toks.skip(1), t.skip(i));
    let u = t.skip(i1);
    assert(toks.skip(1)[0] == LikeTypeV::Str(lit));
    assert(u.len() > 0);
    assert(u.len() >= lit.len() && u.take(lit.len() as int) == lit);
    assert(t.subrange(i1, i1 + lit.len()) =~= u.take(lit.len() as int));
    assert(0 <= i1 && i1 + p.len() - 2 <= t.len() && t.subrange(i1, i1 + p.len() - 2)
        == p.subrange(1, p.len() - 1));
}

} // verus!

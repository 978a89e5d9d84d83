use vstd::prelude::*;
use vstd::string::StrSliceExecFns;
use crate::value::ValModel;
use crate::value::Value;

verus! {

/// The outcome of comparing two values.
#[derive(Clone, Copy, PartialEq, Eq, Structural, Debug)]
pub enum Rank {
    Less,
    Equal,
    Greater,
}

/// The opposite outcome: what comparing the same two values the other way
/// round yields.
pub open spec fn flip(r: Rank) -> Rank {
    match r {
        Rank::Less => Rank::Greater,
        Rank::Equal => Rank::Equal,
        Rank::Greater => Rank::Less,
    }
}

/// Lexicographic comparison of two character sequences by code point.
pub open spec fn lex_rank(a: Seq<char>, b: Seq<char>) -> Rank
    decreases a.len(),
{
    if a.len() == 0 && b.len() == 0 {
        Rank::Equal
    } else if a.len() == 0 {
        Rank::Less
    } else if b.len() == 0 {
        Rank::Greater
    } else if a[0] < b[0] {
        Rank::Less
    } else if b[0] < a[0] {
        Rank::Greater
    } else {
        lex_rank(a.drop_first(), b.drop_first())
    }
}

/// Comparison of two values, matched by type: numbers numerically, text
/// lexically, booleans with false before true. Any other pairing does not
/// order and counts as equal.
pub open spec fn value_rank(a: ValModel, b: ValModel) -> Rank {
    match (a, b) {
        (ValModel::Num(x), ValModel::Num(y)) => if x < y {
            Rank::Less
        } else if y < x {
            Rank::Greater
        } else {
            Rank::Equal
        },
        (ValModel::Text(s), ValModel::Text(t)) => lex_rank(s, t),
        (ValModel::Bool(x), ValModel::Bool(y)) => if !x && y {
            Rank::Less
        } else if x && !y {
            Rank::Greater
        } else {
            Rank::Equal
        },
        _ => Rank::Equal,
    }
}

/// Comparing the same values the other way round flips the outcome.
pub proof fn lemma_lex_rank_flip(a: Seq<char>, b: Seq<char>)
    ensures
        lex_rank(b, a) == flip(lex_rank(a, b)),
    decreases a.len(),
{
    if a.len() != 0 && b.len() != 0 && !(a[0] < b[0]) && !(b[0] < a[0]) {
        lemma_lex_rank_flip(a.drop_first(), b.drop_first());
    }
}

/// Comparing the same values the other way round flips the outcome.
pub broadcast proof fn lemma_value_rank_flip(a: ValModel, b: ValModel)
    ensures
        #[trigger] value_rank(b, a) == flip(value_rank(a, b)),
{
    match (a, b) {
        (ValModel::Text(s), ValModel::Text(t)) => lemma_lex_rank_flip(s, t),
        _ => {},
    }
}

/// Lexicographic comparison of two text values, character by character.
pub fn compare_text(s: &str, t: &str) -> (r: Rank)
    ensures
        r == lex_rank(s@, t@),
{
    let sn = s.unicode_len();
    let tn = t.unicode_len();
    let mut i: usize = 0;
    proof {
        assert(s@.skip(0) =~= s@);
        assert(t@.skip(0) =~= t@);
    }
    loop
        invariant
            i <= sn,
            i <= tn,
            sn == s@.len(),
            tn == t@.len(),
            lex_rank(s@, t@) == lex_rank(s@.skip(i as int), t@.skip(i as int)),
        decreases sn - i,
    {
        if i == sn && i == tn {
            return Rank::Equal;
        } else if i == sn {
            return Rank::Less;
        } else if i == tn {
            return Rank::Greater;
        }
        let cs = s.get_char(i);
        let ct = t.get_char(i);
        if cs < ct {
            return Rank::Less;
        } else if ct < cs {
            return Rank::Greater;
        }
        proof {
            assert(s@.skip(i as int).drop_first() =~= s@.skip(i + 1));
            assert(t@.skip(i as int).drop_first() =~= t@.skip(i + 1));
        }
        i += 1;
    }
}

/// Comparison of two dynamically typed values, as `value_rank` states it.
pub fn compare_values(a: &Value, b: &Value) -> (r: Rank)
    ensures
        r == value_rank(a@, b@),
{
    match (a, b) {
        (Value::Num(x), Value::Num(y)) => if x < y {
            Rank::Less
        } else if y < x {
            Rank::Greater
        } else {
            Rank::Equal
        },
        (Value::Text(s), Value::Text(t)) => compare_text(s.as_str(), t.as_str()),
        (Value::Bool(x), Value::Bool(y)) => if !*x && *y {
            Rank::Less
        } else if *x && !*y {
            Rank::Greater
        } else {
            Rank::Equal
        },
        _ => Rank::Equal,
    }
}

} // verus!

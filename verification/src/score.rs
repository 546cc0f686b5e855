//! Relevance scoring: an exact-fraction score value, the edit-distance
//! similarity metric (through the `strsim` crate), and the substring
//! containment-density metric.

use vstd::prelude::*;
use vstd::string::*;
use crate::text::{occ_count, lemma_occ_bound};

verus! {

/// The Damerau-Levenshtein edit distance between two character sequences,
/// a function of the two sequences alone.
pub uninterp spec fn dl_dist(a: Seq<char>, b: Seq<char>) -> nat;

/// Relies on strsim::damerau_levenshtein: a pure function of the two
/// strings' characters, named here by `dl_dist`.
#[verifier::external_body]
fn damerau_levenshtein(a: &str, b: &str) -> (r: usize)
    ensures
        r as nat == dl_dist(a@, b@),
{
    strsim::damerau_levenshtein(a, b)
}

/// A relevance score, held as the exact fraction `num / den`.
#[derive(Clone, Copy, Debug, PartialEq, Eq)]
pub struct Score {
    pub num: usize,
    pub den: usize,
}

/// A score's denominator is positive.
pub open spec fn score_wf(s: Score) -> bool {
    s.den >= 1
}

/// Whether the value of `a` is strictly below the value of `b`.
pub open spec fn score_lt(a: Score, b: Score) -> bool {
    (a.num as int) * (b.den as int) < (b.num as int) * (a.den as int)
}

/// Whether `a` and `b` hold the same value, possibly in different terms.
pub open spec fn score_val_eq(a: Score, b: Score) -> bool {
    (a.num as int) * (b.den as int) == (b.num as int) * (a.den as int)
}

/// The strict value order on scores is transitive.
pub proof fn lemma_score_lt_trans(a: Score, b: Score, c: Score)
    requires
        score_wf(a),
        score_wf(b),
        score_wf(c),
        score_lt(a, b),
        score_lt(b, c),
    ensures
        score_lt(a, c),
{
    assert((a.num as int) * (c.den as int) < (c.num as int) * (a.den as int))
        by (nonlinear_arith)
        requires
            (a.num as int) * (b.den as int) < (b.num as int) * (a.den as int),
            (b.num as int) * (c.den as int) < (c.num as int) * (b.den as int),
            a.den >= 1,
            b.den >= 1,
            c.den >= 1,
            a.num >= 0,
            b.num >= 0,
            c.num >= 0,
    ;
}

/// Equal values below a common bound stay below it.
pub proof fn lemma_score_eq_lt_trans(a: Score, b: Score, c: Score)
    requires
        score_wf(a),
        score_wf(b),
        score_wf(c),
        score_val_eq(a, b),
        score_lt(b, c),
    ensures
        score_lt(a, c),
{
    assert((a.num as int) * (c.den as int) < (c.num as int) * (a.den as int))
        by (nonlinear_arith)
        requires
            (a.num as int) * (b.den as int) == (b.num as int) * (a.den as int),
            (b.num as int) * (c.den as int) < (c.num as int) * (b.den as int),
            a.den >= 1,
            b.den >= 1,
            c.den >= 1,
    ;
}

/// A strict bound is kept when the bound is replaced by an equal value.
pub proof fn lemma_score_lt_eq_trans(a: Score, b: Score, c: Score)
    requires
        score_wf(a),
        score_wf(b),
        score_wf(c),
        score_lt(a, b),
        score_val_eq(b, c),
    ensures
        score_lt(a, c),
{
    assert((a.num as int) * (c.den as int) < (c.num as int) * (a.den as int))
        by (nonlinear_arith)
        requires
            (a.num as int) * (b.den as int) < (b.num as int) * (a.den as int),
            (b.num as int) * (c.den as int) == (c.num as int) * (b.den as int),
            a.den >= 1,
            b.den >= 1,
            c.den >= 1,
    ;
}

/// Equality of score values is transitive.
pub proof fn lemma_score_eq_trans(a: Score, b: Score, c: Score)
    requires
        score_wf(a),
        score_wf(b),
        score_wf(c),
        score_val_eq(a, b),
        score_val_eq(b, c),
    ensures
        score_val_eq(a, c),
{
    assert((a.num as int) * (c.den as int) == (c.num as int) * (a.den as int))
        by (nonlinear_arith)
        requires
            (a.num as int) * (b.den as int) == (b.num as int) * (a.den as int),
            (b.num as int) * (c.den as int) == (c.num as int) * (b.den as int),
            a.den >= 1,
            b.den >= 1,
            c.den >= 1,
    ;
}

proof fn lemma_mul_fits(a: int, b: int)
    requires
        0 <= a <= 0xFFFF_FFFF_FFFF_FFFF,
        0 <= b <= 0xFFFF_FFFF_FFFF_FFFF,
    ensures
        0 <= a * b < 0x1_0000_0000_0000_0000_0000_0000_0000_0000,
{
    assert(0 <= a * b < 0x1_0000_0000_0000_0000_0000_0000_0000_0000)
        by (nonlinear_arith)
        requires
            0 <= a <= 0xFFFF_FFFF_FFFF_FFFF,
            0 <= b <= 0xFFFF_FFFF_FFFF_FFFF,
    ;
}

/// Compares two score values exactly, by cross-multiplication.
pub fn score_less(a: &Score, b: &Score) -> (r: bool)
    ensures
        r == score_lt(*a, *b),
{
    proof {
        lemma_mul_fits(a.num as int, b.den as int);
        lemma_mul_fits(b.num as int, a.den as int);
    }
    (a.num as u128) * (b.den as u128) < (b.num as u128) * (a.den as u128)
}

/// Whether two scores hold the same value.
pub fn score_value_eq(a: &Score, b: &Score) -> (r: bool)
    ensures
        r == score_val_eq(*a, *b),
{
    proof {
        lemma_mul_fits(a.num as int, b.den as int);
        lemma_mul_fits(b.num as int, a.den as int);
    }
    (a.num as u128) * (b.den as u128) == (b.num as u128) * (a.den as u128)
}

/// The whole-field similarity fraction: one minus the edit distance over
/// the longer length, and exactly one for two empty strings.
pub open spec fn sim_frac(q: Seq<char>, f: Seq<char>) -> Score {
    if q.len() == 0 && f.len() == 0 {
        Score { num: 1, den: 1 }
    } else {
        let m = if q.len() >= f.len() {
            q.len()
        } else {
            f.len()
        };
        let d = dl_dist(q, f);
        Score {
            num: if d <= m {
                (m - d) as usize
            } else {
                0
            },
            den: m as usize,
        }
    }
}

/// The containment-density fraction: the field's byte length over the total
/// length of the query's non-overlapping occurrences, zero when absent.
pub open spec fn density_frac(q: Seq<char>, f: Seq<char>, f_bytes: nat) -> Score {
    let o = occ_count(f, q);
    if o == 0 {
        Score { num: 0, den: 1 }
    } else {
        Score { num: f_bytes as usize, den: (o * q.len()) as usize }
    }
}

/// Computes the whole-field similarity score.
pub fn sim_score(q: &str, f: &str) -> (r: Score)
    ensures
        r == sim_frac(q@, f@),
        score_wf(r),
{
    let ql = q.unicode_len();
    let fl = f.unicode_len();
    if ql == 0 && fl == 0 {
        Score { num: 1, den: 1 }
    } else {
        let m = if ql >= fl {
            ql
        } else {
            fl
        };
        let d = damerau_levenshtein(q, f);
        let num = if d <= m {
            m - d
        } else {
            0
        };
        Score { num, den: m }
    }
}

/// Computes the containment-density score.
pub fn density_score(q: &str, f: &str) -> (r: Score)
    requires
        q@.len() >= 1,
    ensures
        r == density_frac(q@, f@, f.spec_bytes().len() as nat),
        score_wf(r),
{
    let ql = q.unicode_len();
    let o = crate::text::count_occurrences(f, q);
    if o == 0 {
        Score { num: 0, den: 1 }
    } else {
        proof {
            lemma_occ_bound(f@, q@);
            lemma_mul_fits(o as int, ql as int);
        }
        let fl = f.unicode_len();
        assert((o as int) * (ql as int) <= fl as int);
        assert((o as int) * (ql as int) >= 1) by (nonlinear_arith)
            requires
                o >= 1,
                ql >= 1,
        ;
        Score { num: f.len(), den: o * ql }
    }
}

/// Keeps the better of the running best and the next metric: the next one
/// wins only when it is strictly greater.
pub open spec fn pick_best(fs: Seq<Score>) -> Score
    recommends
        fs.len() >= 1,
    decreases fs.len(),
{
    if fs.len() <= 1 {
        fs[0]
    } else {
        let prev = pick_best(fs.drop_last());
        if score_lt(prev, fs.last()) {
            fs.last()
        } else {
            prev
        }
    }
}

/// The metric that `pick_best` keeps is one of the metrics, and no metric
/// strictly exceeds it.
pub proof fn lemma_pick_best(fs: Seq<Score>)
    requires
        fs.len() >= 1,
        forall|i: int| 0 <= i < fs.len() ==> score_wf(#[trigger] fs[i]),
    ensures
        fs.contains(pick_best(fs)),
        score_wf(pick_best(fs)),
        forall|i: int| 0 <= i < fs.len() ==> !score_lt(pick_best(fs), #[trigger] fs[i]),
    decreases fs.len(),
{
    if fs.len() == 1 {
        assert(pick_best(fs) == fs[0]);
    } else {
        let prev = pick_best(fs.drop_last());
        lemma_pick_best(fs.drop_last());
        let j = choose|j: int| 0 <= j < fs.drop_last().len() && fs.drop_last()[j] == prev;
        assert(fs[j] == prev);
        let best = pick_best(fs);
        if score_lt(prev, fs.last()) {
            assert(best == fs.last());
            assert(fs.contains(best)) by {
                assert(fs[fs.len() - 1] == best);
            }
            assert forall|i: int| 0 <= i < fs.len() implies !score_lt(best, #[trigger] fs[i]) by {
                if i < fs.len() - 1 {
                    assert(fs.drop_last()[i] == fs[i]);
                    assert(!score_lt(prev, fs[i]));
                    if score_lt(best, fs[i]) {
                        lemma_score_lt_trans(prev, best, fs[i]);
                    }
                }
            }
        } else {
            assert(best == prev);
            assert forall|i: int| 0 <= i < fs.len() implies !score_lt(best, #[trigger] fs[i]) by {
                if i < fs.len() - 1 {
                    assert(fs.drop_last()[i] == fs[i]);
                }
            }
        }
    }
}

/// A score at least as good as one that meets the threshold meets the
/// threshold too.
pub proof fn lemma_threshold_transfer(d: Score, b: Score)
    requires
        score_wf(d),
        score_wf(b),
        meets_threshold(d),
        !score_lt(b, d),
    ensures
        meets_threshold(b),
{
    assert(5 * (b.num as int) >= 2 * (b.den as int)) by (nonlinear_arith)
        requires
            5 * (d.num as int) >= 2 * (d.den as int),
            (b.num as int) * (d.den as int) >= (d.num as int) * (b.den as int),
            d.den >= 1,
            b.den >= 1,
    ;
}

/// The similarity fraction of texts of machine-representable length is
/// well formed.
pub proof fn lemma_sim_frac_wf(q: Seq<char>, f: Seq<char>)
    requires
        q.len() <= usize::MAX,
        f.len() <= usize::MAX,
    ensures
        score_wf(sim_frac(q, f)),
{
}

/// The density fraction of texts of machine-representable length is well
/// formed.
pub proof fn lemma_density_frac_wf(q: Seq<char>, f: Seq<char>, f_bytes: nat)
    requires
        f.len() <= usize::MAX,
        f_bytes <= usize::MAX,
    ensures
        score_wf(density_frac(q, f, f_bytes)),
{
    let o = occ_count(f, q);
    if o == 0 {
    } else {
        assert(q.len() >= 1);
        lemma_occ_bound(f, q);
        assert((o as int) * (q.len() as int) >= 1) by (nonlinear_arith)
            requires
                o >= 1,
                q.len() >= 1,
        ;
    }
}

/// A book qualifies when its score reaches the acceptance threshold of
/// two fifths.
pub open spec fn meets_threshold(s: Score) -> bool {
    5 * (s.num as int) >= 2 * (s.den as int)
}

/// Tests a score against the acceptance threshold.
pub fn score_meets_threshold(s: &Score) -> (r: bool)
    ensures
        r == meets_threshold(*s),
{
    5 * (s.num as u128) >= 2 * (s.den as u128)
}

} // verus!

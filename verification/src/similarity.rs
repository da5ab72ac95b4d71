use vstd::prelude::*;
use vstd::string::StrSliceExecFns;

verus! {

/// The Damerau-Levenshtein distance of two strings: the least number of
/// insertions, deletions, substitutions and swaps of neighbours that turns
/// one into the other. It stands for what `strsim::damerau_levenshtein`
/// computes and is not defined here.
pub uninterp spec fn edit_distance(a: Seq<char>, b: Seq<char>) -> nat;

/// The length of the longer of two strings.
pub open spec fn longer_len(a: Seq<char>, b: Seq<char>) -> nat {
    if a.len() >= b.len() {
        a.len()
    } else {
        b.len()
    }
}

/// Calls `strsim::damerau_levenshtein`. Trusted: the result is the distance
/// that `edit_distance` names; it never exceeds the length of the longer
/// string, and it is zero for equal strings and for no others. (The crate
/// documents its normalized score, one minus this distance over the longer
/// length, as lying between zero and one, with one for the same strings.)
#[verifier::external_body]
fn damerau_levenshtein(a: &str, b: &str) -> (distance: usize)
    ensures
        distance == edit_distance(a@, b@),
        distance <= longer_len(a@, b@),
        distance == 0 <==> a@ == b@,
{
    strsim::damerau_levenshtein(a, b)
}

/// Mathematical model of a [`Similarity`]: the fraction `numer / denom`.
pub struct Ratio {
    pub numer: nat,
    pub denom: nat,
}

impl Ratio {
    /// That the fraction has a value: its denominator is not zero.
    pub open spec fn valid(self) -> bool {
        self.denom > 0
    }

    /// `self <= other` as fractions.
    pub open spec fn at_most(self, other: Ratio) -> bool {
        self.numer * other.denom <= other.numer * self.denom
    }

    /// That the fraction is 1.
    pub open spec fn is_one(self) -> bool {
        self.denom > 0 && self.numer == self.denom
    }

    /// That the fraction lies between 0 and 1, as every score does.
    pub open spec fn is_score(self) -> bool {
        self.denom > 0 && self.numer <= self.denom
    }
}

/// How similar two strings are, between 0 (nothing in common) and 1 (equal):
/// one minus their edit distance over the length of the longer one. Two
/// empty strings score 1.
pub open spec fn score(a: Seq<char>, b: Seq<char>) -> Ratio {
    let longer = longer_len(a, b);
    let distance = edit_distance(a, b);
    if longer == 0 {
        Ratio { numer: 1, denom: 1 }
    } else if distance <= longer {
        Ratio { numer: (longer - distance) as nat, denom: longer }
    } else {
        Ratio { numer: 0, denom: longer }
    }
}

/// A similarity score, or a threshold for one: a non-negative fraction.
/// Scores lie between 0 and 1; a threshold above 1 is one that no score meets.
#[derive(Debug)]
pub struct Similarity {
    numer: u64,
    denom: u64,
}

impl View for Similarity {
    type V = Ratio;

    closed spec fn view(&self) -> Ratio {
        Ratio { numer: self.numer as nat, denom: self.denom as nat }
    }
}

impl Clone for Similarity {
    fn clone(&self) -> (copy: Similarity)
        ensures
            copy == *self,
    {
        Similarity { numer: self.numer, denom: self.denom }
    }
}

impl Copy for Similarity {}

impl Similarity {
    /// The fraction `numer / denom`, or nothing if `denom` is zero.
    pub fn new(numer: u64, denom: u64) -> (made: Option<Similarity>)
        ensures
            made is None <==> denom == 0,
            made matches Some(s) ==> s@ == (Ratio { numer: numer as nat, denom: denom as nat }),
    {
        if denom == 0 {
            None
        } else {
            Some(Similarity { numer, denom })
        }
    }

    /// The score of equal strings.
    pub fn one() -> (s: Similarity)
        ensures
            s@ == (Ratio { numer: 1, denom: 1 }),
    {
        Similarity { numer: 1, denom: 1 }
    }

    /// The lowest score, which every pair of strings reaches.
    pub fn zero() -> (s: Similarity)
        ensures
            s@ == (Ratio { numer: 0, denom: 1 }),
    {
        Similarity { numer: 0, denom: 1 }
    }

    /// The numerator of the fraction.
    pub fn numer(&self) -> (n: u64)
        ensures
            n == self@.numer,
    {
        self.numer
    }

    /// The denominator of the fraction.
    pub fn denom(&self) -> (d: u64)
        ensures
            d == self@.denom,
    {
        self.denom
    }

    /// Whether `self <= other` as fractions.
    pub fn at_most(&self, other: &Similarity) -> (yes: bool)
        ensures
            yes == self@.at_most(other@),
    {
        let left_numer: u128 = self.numer as u128;
        let left_denom: u128 = self.denom as u128;
        let right_numer: u128 = other.numer as u128;
        let right_denom: u128 = other.denom as u128;
        assert(left_numer * right_denom <= 0xffff_ffff_ffff_ffff * 0xffff_ffff_ffff_ffff)
            by (nonlinear_arith)
            requires
                left_numer <= 0xffff_ffff_ffff_ffff,
                right_denom <= 0xffff_ffff_ffff_ffff,
        ;
        assert(right_numer * left_denom <= 0xffff_ffff_ffff_ffff * 0xffff_ffff_ffff_ffff)
            by (nonlinear_arith)
            requires
                right_numer <= 0xffff_ffff_ffff_ffff,
                left_denom <= 0xffff_ffff_ffff_ffff,
        ;
        left_numer * right_denom <= right_numer * left_denom
    }
}

/// Scores how similar `a` and `b` are.
pub fn similarity(a: &str, b: &str) -> (s: Similarity)
    ensures
        s@ == score(a@, b@),
        s@.is_score(),
        s@.is_one() <==> a@ == b@,
{
    let len_a = a.unicode_len();
    let len_b = b.unicode_len();
    let longer = if len_a >= len_b {
        len_a
    } else {
        len_b
    };
    if longer == 0 {
        proof {
            assert(a@ =~= b@);
        }
        Similarity { numer: 1, denom: 1 }
    } else {
        let distance = damerau_levenshtein(a, b);
        Similarity { numer: (longer - distance) as u64, denom: longer as u64 }
    }
}

/// Fractions with a value are ordered in a line: of any two, one is at most
/// the other, and `at_most` carries over a middle one.
pub proof fn lemma_ratio_order(a: Ratio, b: Ratio, c: Ratio)
    requires
        a.valid(),
        b.valid(),
        c.valid(),
    ensures
        a.at_most(a),
        a.at_most(b) || b.at_most(a),
        a.at_most(b) && b.at_most(c) ==> a.at_most(c),
{
    if a.at_most(b) && b.at_most(c) {
        let (an, ad) = (a.numer as int, a.denom as int);
        let (bn, bd) = (b.numer as int, b.denom as int);
        let (cn, cd) = (c.numer as int, c.denom as int);
        assert(an * cd <= cn * ad) by (nonlinear_arith)
            requires
                an * bd <= bn * ad,
                bn * cd <= cn * bd,
                ad > 0,
                bd > 0,
                cd > 0,
                an >= 0,
                bn >= 0,
                cn >= 0,
        ;
    }
}

} // verus!

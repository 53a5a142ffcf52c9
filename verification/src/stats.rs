//! Clade statistics and the rules that compare them with a threshold.
//!
//! A proportion is kept as an exact fraction, so that a clade's own ratio of
//! targets and a threshold given by the caller are compared without rounding.

use vstd::prelude::*;
use vstd::arithmetic::div_mod::{lemma_fundamental_div_mod, lemma_fundamental_div_mod_converse};
use vstd::arithmetic::mul::lemma_mul_is_commutative;
use crate::error::TreeError;

verus! {

/// `n / d` rounded to the nearest integer, a half rounded up.
pub open spec fn round_half_up(n: nat, d: nat) -> nat {
    n / d + if 2 * (n % d) >= d {
        1nat
    } else {
        0nat
    }
}

/// A fraction `num / den` between 0 and 1.
#[derive(Debug, Clone, Copy)]
pub struct Proportion {
    num: u64,
    den: u64,
}

impl Proportion {
    /// The denominator is not 0, and the fraction not over 1.
    #[verifier::type_invariant]
    pub closed spec fn wf(self) -> bool {
        0 < self.den && self.num <= self.den
    }

    /// The numerator.
    pub closed spec fn num(self) -> nat {
        self.num as nat
    }

    /// The denominator.
    pub closed spec fn den(self) -> nat {
        self.den as nat
    }

    /// The fraction `num / den`, or `None` where `den` is 0 or the fraction
    /// is over 1.
    pub fn new(num: u64, den: u64) -> (r: Option<Proportion>)
        ensures
            r is Some <==> 0 < den && num <= den,
            r matches Some(p) ==> p.wf() && p.num() == num && p.den() == den,
    {
        if 0 < den && num <= den {
            Some(Proportion { num, den })
        } else {
            None
        }
    }
}

/// What the rules read of a clade or of a threshold: the proportion of targets
/// as a fraction, the number of tips and the number of targets.
pub struct StatsView {
    pub prop_num: nat,
    pub prop_den: nat,
    pub size: nat,
    pub targets: nat,
}

impl StatsView {
    /// The number of targets is the proportion of the size, rounded.
    pub open spec fn wf(self) -> bool {
        &&& self.prop_den > 0
        &&& self.targets == round_half_up(self.prop_num * self.size, self.prop_den)
    }

    /// The statistics of a clade of `size` tips, `targets` of them targets.
    pub open spec fn observed(size: nat, targets: nat) -> StatsView {
        StatsView { prop_num: targets, prop_den: size, size, targets }
    }

    /// The qualification rule: the proportion and the size both reach the
    /// threshold's.
    pub open spec fn qualifies(self, threshold: StatsView) -> bool {
        &&& self.prop_num * threshold.prop_den >= threshold.prop_num * self.prop_den
        &&& self.size >= threshold.size
    }

    /// The prune rule: the clade does not qualify and holds fewer targets than
    /// the threshold asks for, so nothing below it can qualify.
    pub open spec fn pruned(self, threshold: StatsView) -> bool {
        &&& !self.qualifies(threshold)
        &&& self.targets < threshold.targets
    }
}

/// A clade that qualifies holds at least the threshold's number of targets.
pub proof fn lemma_qualifying_has_min_targets(size: nat, targets: nat, threshold: StatsView)
    requires
        threshold.wf(),
        StatsView::observed(size, targets).qualifies(threshold),
    ensures
        targets >= threshold.targets,
{
    let d = threshold.prop_den as int;
    let p = (threshold.prop_num * threshold.size) as int;
    let q = p / d;
    let r = p % d;
    lemma_fundamental_div_mod(p, d);
    assert(threshold.prop_num * size >= threshold.prop_num * threshold.size) by (nonlinear_arith)
        requires
            size >= threshold.size,
    ;
    if targets < q {
        assert(targets * d <= (q - 1) * d) by (nonlinear_arith)
            requires
                targets <= q - 1,
                d > 0,
        ;
        assert((q - 1) * d == d * q - d) by (nonlinear_arith);
    }
    if r > 0 && targets == q {
        assert(targets * d == d * q) by (nonlinear_arith)
            requires
                targets == q,
        ;
    }
}

/// Statistics of a clade, or a threshold for them.
#[derive(Debug)]
pub struct CladeTargetStats {
    /// Proportion of targets in the clade, as `prop_num / prop_den`
    prop_num: u64,
    prop_den: u64,
    /// Number of tips in the clade
    size: usize,
    /// Number of targets in the clade
    targets: usize,
}

impl View for CladeTargetStats {
    type V = StatsView;

    closed spec fn view(&self) -> StatsView {
        StatsView {
            prop_num: self.prop_num as nat,
            prop_den: self.prop_den as nat,
            size: self.size as nat,
            targets: self.targets as nat,
        }
    }
}

impl CladeTargetStats {
    /// What the statistics hold is well-formed.
    #[verifier::type_invariant]
    pub closed spec fn wf(self) -> bool {
        self@.wf()
    }

    /// A value of this type is well-formed in the sense of its view.
    pub proof fn lemma_wf(self)
        requires
            self.wf(),
        ensures
            self@.wf(),
    {
    }

    /// The threshold of a minimum proportion and a minimum size. Its number of
    /// targets is that proportion of the size, rounded to the nearest number.
    pub fn threshold(prop: Proportion, size: usize) -> (t: Self)
        ensures
            t.wf(),
            t@.prop_num == prop.num(),
            t@.prop_den == prop.den(),
            t@.size == size,
            t@.targets == round_half_up(prop.num() * (size as nat), prop.den()),
    {
        proof {
            use_type_invariant(&prop);
        }
        let num = prop.num as u128;
        let den = prop.den as u128;
        assert(num * (size as u128) <= den * (size as u128) <= u128::MAX) by (nonlinear_arith)
            requires
                num <= den <= u64::MAX,
                size <= u64::MAX,
        ;
        let product = num * (size as u128);
        let quotient = product / den;
        let remainder = product % den;
        proof {
            let d = den as int;
            let q = quotient as int;
            let n = size as int;
            lemma_fundamental_div_mod(product as int, d);
            if q > n {
                assert(d * q >= d * (n + 1)) by (nonlinear_arith)
                    requires
                        q >= n + 1,
                        d > 0,
                ;
                assert(d * (n + 1) == d * n + d) by (nonlinear_arith);
            }
        }
        let targets = if 2 * remainder >= den {
            quotient + 1
        } else {
            quotient
        };
        CladeTargetStats { prop_num: prop.num, prop_den: prop.den, size, targets: targets as usize }
    }

    /// The statistics of a clade of `size` tips, `targets` of which are
    /// targets. A clade without tips has no proportion.
    pub fn new(size: usize, targets: usize) -> (r: Result<Self, TreeError>)
        ensures
            size == 0 <==> r is Err,
            r matches Err(e) ==> e == TreeError::DegenerateClade,
            r matches Ok(s) ==> s.wf() && s@ == StatsView::observed(size as nat, targets as nat),
    {
        if size == 0 {
            return Err(TreeError::DegenerateClade);
        }
        proof {
            lemma_mul_is_commutative(size as int, targets as int);
            lemma_fundamental_div_mod_converse((targets * size) as int, size as int, targets as int, 0);
        }
        Ok(CladeTargetStats { prop_num: targets as u64, prop_den: size as u64, size, targets })
    }

    /// Number of tips.
    pub fn size(&self) -> (n: usize)
        ensures
            n == self@.size,
    {
        self.size
    }

    /// Number of targets.
    pub fn targets(&self) -> (n: usize)
        ensures
            n == self@.targets,
    {
        self.targets
    }

    /// Whether the proportion and the size both reach the threshold's.
    pub fn qualifies(&self, threshold: &CladeTargetStats) -> (b: bool)
        ensures
            b == self@.qualifies(threshold@),
    {
        let a = self.prop_num as u128;
        let b = threshold.prop_den as u128;
        let c = threshold.prop_num as u128;
        let d = self.prop_den as u128;
        assert(a * b <= u128::MAX && c * d <= u128::MAX) by (nonlinear_arith)
            requires
                a <= u64::MAX,
                b <= u64::MAX,
                c <= u64::MAX,
                d <= u64::MAX,
        ;
        a * b >= c * d && self.size >= threshold.size
    }

    /// Whether the clade neither qualifies nor holds the threshold's number of
    /// targets.
    pub fn pruned(&self, threshold: &CladeTargetStats) -> (b: bool)
        ensures
            b == self@.pruned(threshold@),
    {
        !self.qualifies(threshold) && self.targets < threshold.targets
    }
}

} // verus!

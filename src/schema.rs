//! Term model: variances, field labels, derived type variables and constraints.

use vstd::prelude::*;

verus! {

/// Whether a subtyping relation is kept or reversed when a field is appended.
#[derive(PartialEq, Eq, Structural, Hash, Clone, Copy, Debug)]
pub enum Variance {
    Covariant,
    Contravariant,
}

impl Variance {
    pub open spec fn flipped(self) -> Variance {
        match self {
            Variance::Covariant => Variance::Contravariant,
            Variance::Contravariant => Variance::Covariant,
        }
    }

    /// Composition of two variances: equal ones give covariance.
    pub open spec fn compose(self, other: Variance) -> Variance {
        if self == other {
            Variance::Covariant
        } else {
            Variance::Contravariant
        }
    }

    /// The other variance.
    pub fn invert(&self) -> (r: Variance)
        ensures
            r == self.flipped(),
    {
        match self {
            Variance::Covariant => Variance::Contravariant,
            Variance::Contravariant => Variance::Covariant,
        }
    }

    /// Covariant when both are equal, contravariant otherwise.
    pub fn combine(&self, other: &Variance) -> (r: Variance)
        ensures
            r == self.compose(*other),
    {
        if *self == *other {
            Variance::Covariant
        } else {
            Variance::Contravariant
        }
    }
}


/// Bound attached to a dereference label.
#[derive(PartialEq, Eq, Structural, Hash, Clone, Copy, Debug)]
pub enum Bound {
    Fixed(u32),
    NullTerm,
    NoBound,
}

/// One step of an access path.
#[derive(PartialEq, Eq, Structural, Hash, Clone, Copy, Debug)]
pub enum FieldLabel {
    InPattern(u32),
    OutPattern(u32),
    DerefPattern { size: u32, offset: i32, bound: Option<Bound> },
    Load,
    Store,
}

impl FieldLabel {
    pub open spec fn spec_variance(self) -> Variance {
        match self {
            FieldLabel::InPattern(_) => Variance::Contravariant,
            FieldLabel::Store => Variance::Contravariant,
            _ => Variance::Covariant,
        }
    }

    /// Parameters and stores are contravariant; the other labels covariant.
    pub fn variance(&self) -> (r: Variance)
        ensures
            r == self.spec_variance(),
    {
        match self {
            FieldLabel::InPattern(_) => Variance::Contravariant,
            FieldLabel::OutPattern(_) => Variance::Covariant,
            FieldLabel::DerefPattern { .. } => Variance::Covariant,
            FieldLabel::Load => Variance::Covariant,
            FieldLabel::Store => Variance::Contravariant,
        }
    }
}

/// Variance of a whole access path: the labels' variances composed left to right,
/// starting from covariance.
pub open spec fn path_variance_of(fields: Seq<FieldLabel>) -> Variance
    decreases fields.len(),
{
    if fields.len() == 0 {
        Variance::Covariant
    } else {
        path_variance_of(fields.drop_last()).compose(fields.last().spec_variance())
    }
}

/// Abstract value of a derived type variable: its base name and its access path.
pub type DtvView = (Seq<char>, Seq<FieldLabel>);

/// A base variable followed by a path of field labels.
#[derive(Clone, Debug, Hash)]
pub struct DerivedTypeVariable {
    pub name: String,
    pub fields: Vec<FieldLabel>,
}

impl View for DerivedTypeVariable {
    type V = DtvView;

    open spec fn view(&self) -> DtvView {
        (self.name@, self.fields@)
    }
}

/// Copies the first `n` labels of `v`.
fn copy_prefix(v: &Vec<FieldLabel>, n: usize) -> (r: Vec<FieldLabel>)
    requires
        n <= v@.len(),
    ensures
        r@ == v@.subrange(0, n as int),
{
    let mut r: Vec<FieldLabel> = Vec::new();
    let mut i: usize = 0;
    while i < n
        invariant
            i <= n <= v@.len(),
            r@ == v@.subrange(0, i as int),
        decreases n - i,
    {
        r.push(v[i]);
        i = i + 1;
        assert(r@ =~= v@.subrange(0, i as int));
    }
    r
}

/// Whether two label sequences are equal.
fn fields_equal(a: &Vec<FieldLabel>, b: &Vec<FieldLabel>) -> (r: bool)
    ensures
        r == (a@ == b@),
{
    if a.len() != b.len() {
        return false;
    }
    let mut i: usize = 0;
    while i < a.len()
        invariant
            a@.len() == b@.len(),
            i <= a@.len(),
            forall|k: int| 0 <= k < i ==> a@[k] == b@[k],
        decreases a@.len() - i,
    {
        if a[i] != b[i] {
            return false;
        }
        i = i + 1;
    }
    assert(a@ =~= b@);
    true
}

impl PartialEq for DerivedTypeVariable {
    fn eq(&self, other: &DerivedTypeVariable) -> (r: bool) {
        self.name == other.name && fields_equal(&self.fields, &other.fields)
    }
}

impl vstd::std_specs::cmp::PartialEqSpecImpl for DerivedTypeVariable {
    open spec fn obeys_eq_spec() -> bool {
        true
    }

    open spec fn eq_spec(&self, other: &DerivedTypeVariable) -> bool {
        self@ == other@
    }
}

impl Eq for DerivedTypeVariable {}

impl DerivedTypeVariable {
    /// Whether both denote the same base name and access path.
    pub fn same_as(&self, other: &DerivedTypeVariable) -> (r: bool)
        ensures
            r == (self@ == other@),
    {
        self.name == other.name && fields_equal(&self.fields, &other.fields)
    }

    /// A copy with the same name and path.
    pub fn duplicate(&self) -> (r: DerivedTypeVariable)
        ensures
            r@ == self@,
    {
        DerivedTypeVariable { name: self.name.clone(), fields: copy_prefix(&self.fields, self.fields.len()) }
    }

    /// The variable reached by the first `index` labels of the path.
    pub fn get_sub_dtv(&self, index: usize) -> (r: DerivedTypeVariable)
        requires
            index <= self@.1.len(),
        ensures
            r@ == (self@.0, self@.1.subrange(0, index as int)),
    {
        DerivedTypeVariable { name: self.name.clone(), fields: copy_prefix(&self.fields, index) }
    }

    /// The variances of the path's labels composed, starting from covariance.
    pub fn path_variance(&self) -> (r: Variance)
        ensures
            r == path_variance_of(self@.1),
    {
        let mut variance = Variance::Covariant;
        let mut i: usize = 0;
        while i < self.fields.len()
            invariant
                i <= self@.1.len(),
                variance == path_variance_of(self@.1.subrange(0, i as int)),
            decreases self@.1.len() - i,
        {
            let v = self.fields[i].variance();
            variance = variance.combine(&v);
            assert(self@.1.subrange(0, i + 1).drop_last() =~= self@.1.subrange(0, i as int));
            i = i + 1;
        }
        assert(self@.1.subrange(0, i as int) =~= self@.1);
        variance
    }
}

/// Abstract value of a constraint: left side, then right side.
pub type ConstraintView = (DtvView, DtvView);

/// The subtyping constraint `left <= right`.
#[derive(Clone, Debug)]
pub struct Constraint {
    pub left: DerivedTypeVariable,
    pub right: DerivedTypeVariable,
}

impl View for Constraint {
    type V = ConstraintView;

    open spec fn view(&self) -> ConstraintView {
        (self.left@, self.right@)
    }
}

impl PartialEq for Constraint {
    fn eq(&self, other: &Constraint) -> (r: bool) {
        self.left.same_as(&other.left) && self.right.same_as(&other.right)
    }
}

impl vstd::std_specs::cmp::PartialEqSpecImpl for Constraint {
    open spec fn obeys_eq_spec() -> bool {
        true
    }

    open spec fn eq_spec(&self, other: &Constraint) -> bool {
        self@ == other@
    }
}

} // verus!

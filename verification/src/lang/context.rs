//! The configuration that parsing and execution are threaded through: the
//! operator table and the predicate that says which filters may be built.

use crate::lang::filter::Filter;
use crate::lang::filter::FilterView;
use num::BigInt;
use num::BigRational;
use vstd::prelude::*;

verus! {

/// A class of operators that the parser reduces together at one priority level.
#[derive(Clone, Copy, Debug, PartialEq, Eq, Structural)]
pub enum PrecedenceGroup {
    /// The sequencing operator `;;`.
    AndThen,
    /// Parenthesised groups.
    Circumfix,
}

/// Whether `left_numer / left_denom` is below `right_numer / right_denom`, by
/// the order of `num::BigRational`: with positive denominators that is the order
/// of the cross products. `BigRational::new` panics on a zero denominator.
#[verifier::external_body]
fn ratio_less(left_numer: i64, left_denom: i64, right_numer: i64, right_denom: i64) -> (less: bool)
    requires
        left_denom > 0,
        right_denom > 0,
    ensures
        less == (left_numer * right_denom < right_numer * left_denom),
{
    BigRational::new(BigInt::from(left_numer), BigInt::from(left_denom))
        < BigRational::new(BigInt::from(right_numer), BigInt::from(right_denom))
}

/// The priority of a precedence group: a rational number, so that a new group
/// can always be placed between two others.
#[derive(Clone, Copy, Debug)]
pub struct Precedence {
    numer: i64,
    denom: i64,
}

impl Precedence {
    /// The numerator.
    pub closed spec fn numer(self) -> int {
        self.numer as int
    }

    /// The denominator, which is positive for every precedence that executable
    /// code holds.
    pub closed spec fn denom(self) -> int {
        self.denom as int
    }

    #[verifier::type_invariant]
    spec fn positive_denominator(self) -> bool {
        self.denom > 0
    }

    /// Whether this precedence is strictly lower than `other`.
    pub open spec fn below(self, other: Precedence) -> bool {
        self.numer() * other.denom() < other.numer() * self.denom()
    }

    /// Whether this precedence is the same number as `other`.
    pub open spec fn same_as(self, other: Precedence) -> bool {
        self.numer() * other.denom() == other.numer() * self.denom()
    }

    /// The precedence `number / 1`.
    pub closed spec fn integer(number: i64) -> Precedence {
        Precedence { numer: number, denom: 1 }
    }

    /// The numerator and the denominator of the precedence `number / 1`.
    pub proof fn lemma_integer(number: i64)
        ensures
            Precedence::integer(number).numer() == number,
            Precedence::integer(number).denom() == 1,
    {
    }

    /// The precedence `number / 1`.
    pub fn from_integer(number: i64) -> (precedence: Precedence)
        ensures
            precedence == Precedence::integer(number),
            precedence.numer() == number,
            precedence.denom() == 1,
    {
        Precedence { numer: number, denom: 1 }
    }

    /// The precedence `numer / denom`, for a positive denominator; no precedence
    /// is written with another.
    pub fn new(numer: i64, denom: i64) -> (precedence: Option<Precedence>)
        ensures
            precedence.is_some() == (denom > 0),
            precedence matches Some(p) ==> p.numer() == numer && p.denom() == denom,
    {
        if denom > 0 {
            Some(Precedence { numer, denom })
        } else {
            None
        }
    }

    /// Whether this precedence is strictly lower than `other`.
    pub fn less_than(&self, other: &Precedence) -> (less: bool)
        ensures
            less == self.below(*other),
            self.denom() > 0,
            other.denom() > 0,
    {
        proof {
            use_type_invariant(self);
            use_type_invariant(other);
        }
        ratio_less(self.numer, self.denom, other.numer, other.denom)
    }
}

/// The order of precedences is transitive.
pub proof fn lemma_below_transitive(a: Precedence, b: Precedence, c: Precedence)
    requires
        a.denom() > 0,
        b.denom() > 0,
        c.denom() > 0,
        a.below(b) || a.same_as(b),
        b.below(c),
    ensures
        a.below(c),
{
    let (an, ad) = (a.numer(), a.denom());
    let (bn, bd) = (b.numer(), b.denom());
    let (cn, cd) = (c.numer(), c.denom());
    assert(an * bd * cd <= bn * ad * cd) by (nonlinear_arith)
        requires
            an * bd <= bn * ad,
            cd > 0,
    ;
    assert(bn * cd * ad < cn * bd * ad) by (nonlinear_arith)
        requires
            bn * cd < cn * bd,
            ad > 0,
    ;
    assert(an * cd < cn * ad) by (nonlinear_arith)
        requires
            an * bd * cd <= bn * ad * cd,
            bn * cd * ad < cn * bd * ad,
            bd > 0,
    ;
}

/// An operator table: precedence groups by rising precedence, no two at the
/// same precedence.
pub open spec fn table_ordered(table: Seq<(Precedence, PrecedenceGroup)>) -> bool {
    &&& forall|i: int| 0 <= i < table.len() ==> (#[trigger] table[i]).0.denom() > 0
    &&& forall|i: int, j: int| 0 <= i < j < table.len() ==> (#[trigger] table[i]).0.below((#[trigger] table[j]).0)
}

/// How many entries of the table have a precedence below `precedence`.
pub open spec fn rank(table: Seq<(Precedence, PrecedenceGroup)>, precedence: Precedence) -> nat
    decreases table.len(),
{
    if table.len() == 0 {
        0
    } else if table.last().0.below(precedence) {
        rank(table.drop_last(), precedence) + 1
    } else {
        rank(table.drop_last(), precedence)
    }
}

/// The table after `group` has been entered at `precedence`: an entry at the
/// same precedence gets the new group and keeps its place; otherwise the new
/// entry goes behind the entries of lower precedence.
pub open spec fn table_with(
    table: Seq<(Precedence, PrecedenceGroup)>,
    precedence: Precedence,
    group: PrecedenceGroup,
) -> Seq<(Precedence, PrecedenceGroup)> {
    let at = rank(table, precedence) as int;
    if at < table.len() && table[at].0.same_as(precedence) {
        table.update(at, (table[at].0, group))
    } else {
        table.insert(at, (precedence, group))
    }
}

/// The groups of a table from the highest precedence down: the order in which
/// the parser reduces them.
pub open spec fn groups_descending(table: Seq<(Precedence, PrecedenceGroup)>) -> Seq<PrecedenceGroup> {
    Seq::new(table.len(), |i: int| table[table.len() - 1 - i].1)
}

/// What a predicate on filters decides, as a function of the filter's view:
/// a view is permitted when the predicate refuses no filter with that view.
pub open spec fn policy_of<P: Fn(&Filter) -> bool>(predicate: P) -> spec_fn(FilterView) -> bool {
    |view: FilterView| forall|filter: Filter| #[trigger] filter@ == view ==> !call_ensures(predicate, (&filter,), false)
}

/// A predicate that can serve as a policy: it answers for every filter, and its
/// answer depends on nothing but the filter's view.
pub open spec fn policy_well_formed<P: Fn(&Filter) -> bool>(predicate: P) -> bool {
    &&& forall|filter: Filter| call_requires(predicate, (&filter,))
    &&& forall|accepted: Filter, refused: Filter|
        accepted@ == refused@ && #[trigger] call_ensures(predicate, (&accepted,), true) ==> !#[trigger] call_ensures(
            predicate,
            (&refused,),
            false,
        )
}

/// A context as plain data.
pub struct ContextView {
    /// The operator table by rising precedence.
    pub operators: Seq<(Precedence, PrecedenceGroup)>,
    /// Which filters may be built.
    pub permits: spec_fn(FilterView) -> bool,
}

impl ContextView {
    /// The precedence groups from the highest precedence down.
    pub open spec fn groups(self) -> Seq<PrecedenceGroup> {
        groups_descending(self.operators)
    }

    /// Whether the policy permits `filter`.
    pub open spec fn allows(self, filter: FilterView) -> bool {
        (self.permits)(filter)
    }

    /// Whether the policy permits every filter.
    pub open spec fn allows_all(self) -> bool {
        forall|filter: FilterView| #[trigger] self.allows(filter)
    }
}

/// The grammar and policy in force: an operator table ordered by precedence and
/// a predicate that the parser asks before it hands out any filter it has built.
/// A context is never changed in place once it is in use; a new one is built
/// and handed on.
pub struct Context<P: Fn(&Filter) -> bool + Copy> {
    pub(crate) filter_allowed: P,
    pub(crate) operators: Vec<(Precedence, PrecedenceGroup)>,
}

impl<P: Fn(&Filter) -> bool + Copy> View for Context<P> {
    type V = ContextView;

    closed spec fn view(&self) -> ContextView {
        ContextView { operators: self.operators@, permits: policy_of(self.filter_allowed) }
    }
}

impl<P: Fn(&Filter) -> bool + Copy> Context<P> {
    /// The predicate that decides which filters may be built.
    pub closed spec fn policy(&self) -> P {
        self.filter_allowed
    }

    /// The context as plain data: its view.
    pub open spec fn plain(&self) -> ContextView {
        self@
    }

    /// The table is ordered and the predicate can serve as a policy.
    pub open spec fn well_formed(&self) -> bool {
        &&& table_ordered(self@.operators)
        &&& policy_well_formed(self.policy())
        &&& self@.permits == policy_of(self.policy())
    }

    /// A context with an empty operator table and `filter_allowed` as its policy.
    pub fn new(filter_allowed: P) -> (context: Context<P>)
        requires
            policy_well_formed(filter_allowed),
        ensures
            context.well_formed(),
            context.policy() == filter_allowed,
            context@.operators == Seq::<(Precedence, PrecedenceGroup)>::empty(),
    {
        Context { filter_allowed, operators: Vec::new() }
    }

    /// Whether the policy permits `filter`.
    pub fn allows(&self, filter: &Filter) -> (allowed: bool)
        requires
            self.well_formed(),
        ensures
            allowed == (self@.permits)(filter@),
    {
        let predicate = self.filter_allowed;
        predicate(filter)
    }

    /// The number of precedence groups.
    pub fn group_count(&self) -> (count: usize)
        ensures
            count == self@.operators.len(),
            count == self@.groups().len(),
    {
        self.operators.len()
    }

    /// The group at place `place` counted from the highest precedence.
    pub fn group_at(&self, place: usize) -> (group: PrecedenceGroup)
        requires
            place < self@.operators.len(),
        ensures
            group == self@.groups()[place as int],
    {
        self.operators[self.operators.len() - 1 - place].1
    }

    /// Enters `group` at `precedence`. The group that stood at that precedence,
    /// if any, is replaced and returned.
    pub fn insert_operator(&mut self, precedence: Precedence, group: PrecedenceGroup) -> (replaced: Option<PrecedenceGroup>)
        requires
            old(self).well_formed(),
        ensures
            final(self).well_formed(),
            final(self).policy() == old(self).policy(),
            final(self)@.permits == old(self)@.permits,
            final(self)@.operators == table_with(old(self)@.operators, precedence, group),
            replaced == {
                let at = rank(old(self)@.operators, precedence) as int;
                if at < old(self)@.operators.len() && old(self)@.operators[at].0.same_as(precedence) {
                    Some(old(self)@.operators[at].1)
                } else {
                    None
                }
            },
    {
        let ghost table = self.operators@;
        let mut at: usize = 0;
        proof {
            use_type_invariant(&precedence);
        }
        while at < self.operators.len() && self.operators[at].0.less_than(&precedence)
            invariant
                self.operators@ == table,
                table_ordered(table),
                at <= table.len(),
                precedence.denom() > 0,
                forall|i: int| 0 <= i < at ==> (#[trigger] table[i]).0.below(precedence),
            decreases table.len() - at,
        {
            at += 1;
        }
        proof {
            lemma_rank_of_prefix(table, precedence, at as int);
        }
        if at < self.operators.len() && !precedence.less_than(&self.operators[at].0) {
            let entry = self.operators[at];
            self.operators.set(at, (entry.0, group));
            Some(entry.1)
        } else {
            self.operators.insert(at, (precedence, group));
            proof {
                let widened = self.operators@;
                assert forall|i: int, j: int| 0 <= i < j < widened.len() implies (#[trigger] widened[i]).0.below(
                    (#[trigger] widened[j]).0,
                ) by {
                    if i == at && j > at + 1 {
                        lemma_below_transitive(precedence, table[at as int].0, table[j - 1].0);
                    }
                }
            }
            None
        }
    }
}

impl<P: Fn(&Filter) -> bool + Copy> Clone for Context<P> {
    /// A context with the same table and the same policy.
    fn clone(&self) -> (copy: Context<P>)
        ensures
            copy@ == self@,
            copy.policy() == self.policy(),
    {
        let mut operators: Vec<(Precedence, PrecedenceGroup)> = Vec::new();
        let mut i: usize = 0;
        while i < self.operators.len()
            invariant
                i <= self.operators.len(),
                operators@ == self.operators@.take(i as int),
            decreases self.operators.len() - i,
        {
            operators.push(self.operators[i]);
            i += 1;
        }
        assert(operators@ =~= self.operators@);
        Context { filter_allowed: self.filter_allowed, operators }
    }
}

/// In an ordered table whose first `at` entries are below `precedence` and whose
/// entry at `at`, if there is one, is not, exactly `at` entries are below it.
proof fn lemma_rank_of_prefix(table: Seq<(Precedence, PrecedenceGroup)>, precedence: Precedence, at: int)
    requires
        table_ordered(table),
        precedence.denom() > 0,
        0 <= at <= table.len(),
        forall|i: int| 0 <= i < at ==> (#[trigger] table[i]).0.below(precedence),
        at < table.len() ==> !table[at].0.below(precedence),
    ensures
        rank(table, precedence) == at,
    decreases table.len(),
{
    if table.len() > 0 {
        let shorter = table.drop_last();
        let last = table.len() - 1;
        if at == table.len() {
            lemma_rank_of_prefix(shorter, precedence, at - 1);
        } else {
            if last > at && table[last].0.below(precedence) {
                lemma_below_transitive(table[at].0, table[last].0, precedence);
            }
            lemma_rank_of_prefix(shorter, precedence, at);
        }
    }
}

} // verus!

//! The contexts that the shell starts from.

use crate::lang::context::policy_well_formed;
use crate::lang::context::ContextView;
use crate::lang::context::rank;
use crate::lang::context::Context;
use crate::lang::context::Precedence;
use crate::lang::context::PrecedenceGroup;
use crate::lang::filter::Filter;
use crate::lang::filter::FilterView;
use vstd::prelude::*;

verus! {

/// The operator table of an interactive session: sequencing at precedence
/// -1000000 and nothing else.
pub open spec fn sequencing_table() -> Seq<(Precedence, PrecedenceGroup)> {
    seq![(Precedence::integer(-1_000_000i64), PrecedenceGroup::AndThen)]
}

/// The operator table with parentheses: sequencing at precedence -1000000 and
/// parentheses at precedence 1000000.
pub open spec fn parentheses_table() -> Seq<(Precedence, PrecedenceGroup)> {
    seq![
        (Precedence::integer(-1_000_000i64), PrecedenceGroup::AndThen),
        (Precedence::integer(1_000_000i64), PrecedenceGroup::Circumfix),
    ]
}

/// The policy that permits every filter.
pub open spec fn permit_all() -> spec_fn(FilterView) -> bool {
    |filter: FilterView| true
}

/// The default context as plain data: sequencing only, every filter permitted.
pub open spec fn default_context() -> ContextView {
    ContextView { operators: sequencing_table(), permits: permit_all() }
}

/// The default context with parentheses as plain data.
pub open spec fn default_context_with_parentheses() -> ContextView {
    ContextView { operators: parentheses_table(), permits: permit_all() }
}

/// The context with sequencing as its only operator and the policy
/// `filter_allowed`.
fn with_sequencing<P: Fn(&Filter) -> bool + Copy>(filter_allowed: P) -> (context: Context<P>)
    requires
        policy_well_formed(filter_allowed),
    ensures
        context.well_formed(),
        context.policy() == filter_allowed,
        context@.operators == sequencing_table(),
        context@.groups() == seq![PrecedenceGroup::AndThen],
{
    let mut table = Context::new(filter_allowed);
    let low = Precedence::from_integer(-1_000_000);
    table.insert_operator(low, PrecedenceGroup::AndThen);
    table
}

/// The context with sequencing and parentheses and the policy
/// `filter_allowed`.
fn with_parentheses<P: Fn(&Filter) -> bool + Copy>(filter_allowed: P) -> (context: Context<P>)
    requires
        policy_well_formed(filter_allowed),
    ensures
        context.well_formed(),
        context.policy() == filter_allowed,
        context@.operators == parentheses_table(),
        context@.groups() == seq![PrecedenceGroup::Circumfix, PrecedenceGroup::AndThen],
{
    let mut table = Context::new(filter_allowed);
    let high = Precedence::from_integer(1_000_000);
    let low = Precedence::from_integer(-1_000_000);
    proof {
        reveal_with_fuel(rank, 3);
    }
    table.insert_operator(high, PrecedenceGroup::Circumfix);
    table.insert_operator(low, PrecedenceGroup::AndThen);
    table
}

/// The default context for interactive shell sessions: sequencing is its only
/// precedence group, and its policy permits every filter. Every call gives the
/// same context.
pub fn context() -> (context: Context<impl Fn(&Filter) -> bool + Copy>)
    ensures
        context.well_formed(),
        context.plain() == default_context(),
        context.plain().allows_all(),
        context.plain().operators.len() == 1,
        context.plain().groups() == seq![PrecedenceGroup::AndThen],
{
    let accept = |filter: &Filter| -> (allowed: bool)
        ensures
            allowed,
        { true };
    let context = with_sequencing(accept);
    assert(context@.permits =~= permit_all());
    context
}

/// The default context with parentheses added above sequencing: a session that
/// groups filters starts from it. Its policy permits every filter.
pub fn context_with_parentheses() -> (context: Context<impl Fn(&Filter) -> bool + Copy>)
    ensures
        context.well_formed(),
        context.plain() == default_context_with_parentheses(),
        context.plain().allows_all(),
        context.plain().operators.len() == 2,
        context.plain().groups() == seq![PrecedenceGroup::Circumfix, PrecedenceGroup::AndThen],
{
    let accept = |filter: &Filter| -> (allowed: bool)
        ensures
            allowed,
        { true };
    let context = with_parentheses(accept);
    assert(context@.permits =~= permit_all());
    context
}

} // verus!

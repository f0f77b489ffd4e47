use jqsh::builtin;
use jqsh::lang::context::{Context, Precedence, PrecedenceGroup};
use jqsh::lang::filter::Filter;

#[test]
fn precedence_orders_as_rational_numbers() {
    let half = Precedence::new(1, 2).unwrap();
    let two_thirds = Precedence::new(2, 3).unwrap();
    let two_quarters = Precedence::new(2, 4).unwrap();
    assert!(half.less_than(&two_thirds));
    assert!(!two_thirds.less_than(&half));
    assert!(!half.less_than(&two_quarters));
    assert!(!two_quarters.less_than(&half));
    assert!(!half.less_than(&half));
    assert!(Precedence::from_integer(-1).less_than(&Precedence::from_integer(1)));
    assert!(!Precedence::from_integer(1).less_than(&Precedence::from_integer(-1)));
    assert!(Precedence::from_integer(-3).less_than(&Precedence::new(-5, 2).unwrap()));
    assert!(Precedence::from_integer(0).less_than(&Precedence::new(1, i64::MAX).unwrap()));
    assert!(Precedence::new(i64::MAX, 1).unwrap().less_than(&Precedence::new(i64::MAX, i64::MAX).unwrap()) == false);
    assert!(Precedence::new(i64::MIN, 1).unwrap().less_than(&Precedence::new(i64::MAX, 1).unwrap()));
}

#[test]
fn precedence_needs_a_positive_denominator() {
    assert!(Precedence::new(1, 0).is_none());
    assert!(Precedence::new(1, -2).is_none());
    assert!(Precedence::new(0, 1).is_some());
    assert!(Precedence::new(-7, 3).is_some());
}

#[test]
fn operators_are_kept_by_precedence() {
    let mut context = Context::new(|_: &Filter| true);
    assert_eq!(context.group_count(), 0);
    assert_eq!(context.insert_operator(Precedence::from_integer(5), PrecedenceGroup::AndThen), None);
    assert_eq!(context.insert_operator(Precedence::from_integer(9), PrecedenceGroup::Circumfix), None);
    assert_eq!(context.insert_operator(Precedence::new(11, 2).unwrap(), PrecedenceGroup::Circumfix), None);
    assert_eq!(context.insert_operator(Precedence::from_integer(-4), PrecedenceGroup::AndThen), None);
    assert_eq!(context.group_count(), 4);
    assert_eq!(context.group_at(0), PrecedenceGroup::Circumfix);
    assert_eq!(context.group_at(1), PrecedenceGroup::Circumfix);
    assert_eq!(context.group_at(2), PrecedenceGroup::AndThen);
    assert_eq!(context.group_at(3), PrecedenceGroup::AndThen);
}

#[test]
fn an_operator_at_a_taken_precedence_replaces_the_group() {
    let mut context = Context::new(|_: &Filter| true);
    context.insert_operator(Precedence::from_integer(1), PrecedenceGroup::AndThen);
    context.insert_operator(Precedence::from_integer(2), PrecedenceGroup::AndThen);
    let replaced = context.insert_operator(Precedence::new(4, 2).unwrap(), PrecedenceGroup::Circumfix);
    assert_eq!(replaced, Some(PrecedenceGroup::AndThen));
    assert_eq!(context.group_count(), 2);
    assert_eq!(context.group_at(0), PrecedenceGroup::Circumfix);
    assert_eq!(context.group_at(1), PrecedenceGroup::AndThen);
}

#[test]
fn a_group_can_go_between_two_others() {
    let mut context = builtin::context_with_parentheses();
    context.insert_operator(Precedence::new(1, 3).unwrap(), PrecedenceGroup::Circumfix);
    context.insert_operator(Precedence::new(1, 4).unwrap(), PrecedenceGroup::AndThen);
    assert_eq!(context.group_count(), 4);
    assert_eq!(context.group_at(0), PrecedenceGroup::Circumfix);
    assert_eq!(context.group_at(1), PrecedenceGroup::Circumfix);
    assert_eq!(context.group_at(2), PrecedenceGroup::AndThen);
    assert_eq!(context.group_at(3), PrecedenceGroup::AndThen);
}

#[test]
fn the_default_context_has_sequencing_only() {
    let first = builtin::context();
    let second = builtin::context();
    assert_eq!(first.group_count(), 1);
    assert_eq!(first.group_at(0), PrecedenceGroup::AndThen);
    assert_eq!(second.group_count(), 1);
    assert_eq!(second.group_at(0), PrecedenceGroup::AndThen);
    for filter in [Filter::Empty, Filter::group(Filter::Empty)] {
        assert!(first.allows(&filter));
        assert!(second.allows(&filter));
    }
}

#[test]
fn built_in_contexts() {
    let full = builtin::context_with_parentheses();
    assert_eq!(full.group_count(), 2);
    assert_eq!(full.group_at(0), PrecedenceGroup::Circumfix);
    assert_eq!(full.group_at(1), PrecedenceGroup::AndThen);
    assert!(full.allows(&Filter::Empty));
    let session = builtin::context();
    assert_eq!(session.group_count(), 1);
    assert_eq!(session.group_at(0), PrecedenceGroup::AndThen);
    assert!(session.allows(&Filter::Empty));
}

#[test]
fn a_context_asks_its_policy() {
    let context = Context::new(|filter: &Filter| matches!(filter, Filter::Empty));
    assert!(context.allows(&Filter::Empty));
    assert!(!context.allows(&Filter::group(Filter::Empty)));
    let copy = context.clone();
    assert!(copy.allows(&Filter::Empty));
    assert!(!copy.allows(&Filter::group(Filter::Empty)));
    assert!(PrecedenceGroup::AndThen != PrecedenceGroup::Circumfix);
}

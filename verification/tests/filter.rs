use jqsh::builtin;
use jqsh::lang::channel::{Receiver, Sender};
use jqsh::lang::code::Code;
use jqsh::lang::context::{Context, Precedence, PrecedenceGroup};
use jqsh::lang::filter::{Behavior, Filter};
use jqsh::lang::parser::parse;
use jqsh::lang::value::Value;
use jqsh::util::Labeled;

fn input_of<P: Fn(&Filter) -> bool + Copy>(context: Context<P>, values: Vec<Value>) -> Receiver<P> {
    let mut sender = Sender::new();
    for value in values {
        sender.send(value).unwrap();
    }
    sender.set_context(context).unwrap();
    sender.into_receiver().unwrap()
}

fn drain<P: Fn(&Filter) -> bool + Copy>(mut receiver: Receiver<P>) -> Vec<String> {
    let mut texts = Vec::new();
    while let Some(value) = receiver.next() {
        texts.push(value.to_string());
    }
    texts
}

fn three() -> Vec<Value> {
    vec![Value::Number(1), Value::Number(2), Value::Number(3)]
}

fn sequence(lhs: Filter, code: &str) -> Filter {
    Filter::and_then(lhs, Code::from_text(code))
}

#[test]
fn the_empty_filter_passes_the_context_and_no_values() {
    let output = input_of(builtin::context_with_parentheses(), three()).filter_sync(&Filter::Empty);
    assert_eq!(output.context().group_count(), 2);
    assert!(drain(output).is_empty());
    let output = Receiver::empty(builtin::context()).filter_sync(&Filter::Empty);
    assert_eq!(output.context().group_count(), 1);
    assert!(drain(output).is_empty());
}

#[test]
fn the_parsed_empty_filter_passes_the_context_and_no_values() {
    let filter = parse(Code::from_text("  "), builtin::context()).unwrap();
    let output = input_of(builtin::context(), three()).filter_sync(&filter);
    assert_eq!(output.context().group_count(), 1);
    assert!(drain(output).is_empty());
}

#[test]
fn run_sets_the_context_and_closes_the_output() {
    let mut output = Sender::new();
    Filter::Empty.run(Receiver::empty(builtin::context_with_parentheses()), &mut output);
    assert!(output.set_context(builtin::context_with_parentheses()).is_err());
    assert!(output.close().is_err());
    assert!(output.send(Value::Null).is_err());
    let receiver = output.into_receiver().unwrap();
    assert_eq!(receiver.context().group_count(), 2);
}

#[test]
fn run_puts_its_values_behind_those_already_sent() {
    let mut output = Sender::new();
    output.send(Value::Number(0)).unwrap();
    sequence(Filter::Empty, "@").run(Receiver::empty(builtin::context_with_parentheses()), &mut output);
    assert_eq!(drain(output.into_receiver().unwrap()), vec!["0", "raise \"syntax\""]);
}

#[test]
fn double_sequencing_runs_without_an_exception() {
    let filter = parse(Code::from_text(";; ;;"), builtin::context()).unwrap();
    let output = Receiver::empty(builtin::context()).filter_sync(&filter);
    assert_eq!(output.context().group_count(), 1);
    assert_eq!(output.context().group_at(0), PrecedenceGroup::AndThen);
    assert!(drain(output).is_empty());
}

#[test]
fn a_right_hand_side_that_does_not_parse_becomes_one_exception() {
    let filter = parse(Code::from_text(";; @"), builtin::context_with_parentheses()).unwrap();
    let output = input_of(builtin::context_with_parentheses(), three()).filter_sync(&filter);
    assert_eq!(output.context().group_count(), 2);
    assert_eq!(drain(output), vec!["raise \"syntax\""]);
}

#[test]
fn the_right_hand_side_is_parsed_in_the_context_handed_on() {
    // parentheses mean something only where the context has a group for them
    let with_parens = builtin::context_with_parentheses();
    let without = builtin::context();
    assert!(parse(Code::from_text("()"), with_parens.clone()).is_ok());
    assert!(parse(Code::from_text("()"), without.clone()).is_err());
    let filter = sequence(Filter::Empty, "()");
    let output = Receiver::empty(with_parens).filter_sync(&filter);
    assert!(drain(output).is_empty());
    let output = Receiver::empty(without).filter_sync(&filter);
    assert_eq!(drain(output), vec!["raise \"syntax\""]);
}

#[test]
fn the_values_of_the_left_hand_side_are_dropped() {
    // on its own the left-hand side puts out an exception
    let lhs = sequence(Filter::Empty, "@");
    let alone = input_of(builtin::context_with_parentheses(), three()).filter_sync(&lhs);
    assert_eq!(drain(alone), vec!["raise \"syntax\""]);
    // in a sequence only its context counts
    let whole = sequence(lhs, "");
    let output = input_of(builtin::context_with_parentheses(), three()).filter_sync(&whole);
    assert_eq!(output.context().group_count(), 2);
    assert!(drain(output).is_empty());
}

#[test]
fn a_group_runs_as_the_filter_inside() {
    for inside in [Filter::Empty, sequence(Filter::Empty, "@"), sequence(Filter::Empty, ";; ()")] {
        let plain = input_of(builtin::context_with_parentheses(), three()).filter_sync(&inside);
        let grouped = input_of(builtin::context_with_parentheses(), three()).filter_sync(&Filter::group(inside.clone()));
        assert_eq!(plain.context().group_count(), grouped.context().group_count());
        assert_eq!(drain(plain), drain(grouped));
    }
}

#[test]
fn a_parsed_group_runs_as_the_filter_inside() {
    let grouped = parse(Code::from_text("(( ))  ;; @"), builtin::context_with_parentheses()).unwrap();
    let output = input_of(builtin::context_with_parentheses(), three()).filter_sync(&grouped);
    assert_eq!(drain(output), vec!["raise \"syntax\""]);
    let fine = parse(Code::from_text("(( ))  ;; ()"), builtin::context_with_parentheses()).unwrap();
    let output = input_of(builtin::context_with_parentheses(), three()).filter_sync(&fine);
    assert!(drain(output).is_empty());
}

#[test]
fn a_policy_can_refuse_what_the_right_hand_side_needs() {
    let mut guarded = Context::new(|filter: &Filter| !matches!(filter, Filter::Custom { .. }));
    guarded.insert_operator(Precedence::from_integer(1), PrecedenceGroup::Circumfix);
    guarded.insert_operator(Precedence::from_integer(0), PrecedenceGroup::AndThen);
    let filter = parse(Code::from_text(";; ()"), guarded.clone()).unwrap();
    let output = Receiver::empty(guarded).filter_sync(&filter);
    assert_eq!(drain(output), vec!["raise \"syntax\""]);
}

#[test]
fn filters_can_be_built_and_cloned() {
    let built = Filter::Custom {
        attributes: vec![Filter::Empty],
        run: Labeled::new("mine", Behavior::Group),
    };
    let copy = built.clone();
    match copy {
        Filter::Custom { attributes, run } => {
            assert_eq!(attributes.len(), 1);
            assert_eq!(run.label().as_str(), "mine");
            assert_eq!(*run.get(), Behavior::Group);
        }
        other => panic!("unexpected filter {:?}", other),
    }
    let chain = sequence(Filter::group(Filter::Empty), "rest").clone();
    match chain {
        Filter::AndThen { lhs, remaining_code } => {
            assert!(matches!(*lhs, Filter::Custom { .. }));
            assert_eq!(remaining_code.remaining(), vec!['r', 'e', 's', 't']);
        }
        other => panic!("unexpected filter {:?}", other),
    }
}

#[test]
fn only_groups_of_one_filter_are_well_formed() {
    assert!(Filter::Empty.is_well_formed());
    assert!(Filter::group(Filter::group(Filter::Empty)).is_well_formed());
    assert!(sequence(Filter::group(Filter::Empty), "@").is_well_formed());
    let none = Filter::Custom { attributes: Vec::new(), run: Labeled::new("none", Behavior::Group) };
    assert!(!none.is_well_formed());
    let two = Filter::Custom {
        attributes: vec![Filter::Empty, Filter::Empty],
        run: Labeled::new("two", Behavior::Group),
    };
    assert!(!two.is_well_formed());
    assert!(!sequence(Filter::group(two), "").is_well_formed());
    assert!(parse(Code::from_text("(()) ;; ("), builtin::context_with_parentheses()).unwrap().is_well_formed());
}

#[test]
fn a_filter_runs_on_the_context_alone() {
    for filter in [Filter::Empty, sequence(Filter::Empty, "@"), sequence(Filter::Empty, ";; ()")] {
        let with_values = input_of(builtin::context_with_parentheses(), three()).filter_sync(&filter);
        let on_context = Receiver::filter_context(builtin::context_with_parentheses(), &filter);
        assert_eq!(with_values.context().group_count(), on_context.context().group_count());
        assert_eq!(drain(with_values), drain(on_context));
    }
}

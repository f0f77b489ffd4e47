use jqsh::builtin;
use jqsh::lang::channel::{ChannelError, Receiver, Sender};
use jqsh::lang::context::{Context, Precedence, PrecedenceGroup};
use jqsh::lang::filter::Filter;
use jqsh::lang::value::Value;

fn context_of(groups: &[PrecedenceGroup]) -> Context<impl Fn(&Filter) -> bool + Copy> {
    let mut context = Context::new(|_: &Filter| true);
    let mut precedence = 0;
    for group in groups {
        precedence -= 1;
        context.insert_operator(Precedence::from_integer(precedence), *group);
    }
    context
}

#[test]
fn the_context_is_set_once() {
    let mut sender = Sender::new();
    assert_eq!(sender.set_context(builtin::context_with_parentheses()), Ok(()));
    assert_eq!(sender.set_context(builtin::context_with_parentheses()), Err(ChannelError::Closed));
    let receiver = sender.into_receiver().unwrap();
    assert_eq!(receiver.context().group_count(), 2);
}

#[test]
fn the_stream_is_closed_once() {
    let mut sender = Sender::new();
    sender.set_context(builtin::context()).unwrap();
    assert_eq!(sender.send(Value::Number(1)), Ok(()));
    assert_eq!(sender.close(), Ok(()));
    assert_eq!(sender.close(), Err(ChannelError::Closed));
    assert_eq!(sender.send(Value::Number(2)), Err(ChannelError::Closed));
    let mut receiver = sender.into_receiver().unwrap();
    assert!(matches!(receiver.next(), Some(Value::Number(1))));
    assert!(receiver.next().is_none());
}

#[test]
fn sending_to_a_receiver_that_is_gone_fails() {
    let mut sender = Sender::new();
    sender.set_context(builtin::context()).unwrap();
    assert_eq!(sender.send(Value::Null), Ok(()));
    sender.disconnect();
    assert_eq!(sender.send(Value::Null), Err(ChannelError::Disconnected));
    assert_eq!(sender.close(), Ok(()));
    assert_eq!(sender.send(Value::Null), Err(ChannelError::Closed));
    assert!(sender.into_receiver().is_none());
}

fn unset_sender<P: Fn(&Filter) -> bool + Copy>(_like: &Context<P>) -> Sender<P> {
    Sender::new()
}

#[test]
fn nothing_is_received_without_a_context() {
    let context = builtin::context_with_parentheses();
    let mut sender = unset_sender(&context);
    sender.send(Value::Null).unwrap();
    assert!(sender.into_receiver().is_none());
    let mut typed = unset_sender(&context);
    typed.set_context(context).unwrap();
    assert!(typed.into_receiver().is_some());
}

fn receiver_of(values: Vec<Value>) -> Receiver<impl Fn(&Filter) -> bool + Copy> {
    let mut sender = Sender::new();
    for value in values {
        sender.send(value).unwrap();
    }
    sender.set_context(context_of(&[PrecedenceGroup::Circumfix, PrecedenceGroup::AndThen])).unwrap();
    sender.into_receiver().unwrap()
}

fn drain<P: Fn(&Filter) -> bool + Copy>(mut receiver: Receiver<P>) -> Vec<String> {
    let mut texts = Vec::new();
    while let Some(value) = receiver.next() {
        texts.push(value.to_string());
    }
    texts
}

#[test]
fn values_arrive_in_the_order_sent() {
    let receiver = receiver_of(vec![Value::Number(1), Value::Null, Value::Boolean(true)]);
    assert_eq!(drain(receiver), vec!["1", "null", "true"]);
}

#[test]
fn an_empty_receiver_has_its_context_and_no_values() {
    let mut receiver = Receiver::empty(builtin::context());
    assert_eq!(receiver.context().group_count(), 1);
    assert_eq!(receiver.context().group_count(), 1);
    assert!(receiver.next().is_none());
}

#[test]
fn split_gives_both_sides_everything() {
    let receiver = receiver_of(vec![Value::Number(1), Value::String("two".to_string()), Value::Function]);
    let (left, right) = receiver.split();
    assert_eq!(left.context().group_count(), 2);
    assert_eq!(right.context().group_count(), 2);
    assert_eq!(drain(left), vec!["1", "\"two\"", "def (...)"]);
    assert_eq!(drain(right), vec!["1", "\"two\"", "def (...)"]);
}

#[test]
fn split_of_a_partly_read_receiver_gives_the_rest() {
    let mut receiver = receiver_of(vec![Value::Number(1), Value::Number(2), Value::Number(3)]);
    assert!(matches!(receiver.next(), Some(Value::Number(1))));
    let (left, right) = receiver.split();
    assert_eq!(drain(left), vec!["2", "3"]);
    assert_eq!(drain(right), vec!["2", "3"]);
}

fn forward_all<P: Fn(&Filter) -> bool + Copy>(
    source: &mut Receiver<P>,
    context: Context<P>,
    first: Value,
) -> Receiver<P> {
    let mut target = Sender::new();
    target.send(first).unwrap();
    let mut target = source.forward_values(target).unwrap();
    assert_eq!(target.send(Value::Number(9)), Err(ChannelError::Closed));
    assert_eq!(target.close(), Err(ChannelError::Closed));
    assert_eq!(target.set_context(context), Ok(()));
    target.into_receiver().unwrap()
}

#[test]
fn forwarding_moves_values_and_leaves_the_context_alone() {
    let mut source = receiver_of(vec![Value::Number(1), Value::Number(2)]);
    let other_context = source.context();
    let mut other_context = other_context;
    other_context.insert_operator(Precedence::from_integer(7), PrecedenceGroup::AndThen);
    let receiver = forward_all(&mut source, other_context, Value::Number(0));
    assert!(source.next().is_none());
    assert_eq!(source.context().group_count(), 2);
    assert_eq!(receiver.context().group_count(), 3);
    assert_eq!(drain(receiver), vec!["0", "1", "2"]);
}

#[test]
fn forwarding_into_a_closed_sender_fails_and_moves_nothing() {
    let mut source = receiver_of(vec![Value::Number(1)]);
    let mut closed = Sender::new();
    closed.close().unwrap();
    assert!(matches!(source.forward_values(closed), Err(ChannelError::Closed)));
    let mut gone = Sender::new();
    gone.disconnect();
    assert!(matches!(source.forward_values(gone), Err(ChannelError::Disconnected)));
    assert_eq!(drain(source), vec!["1"]);
}

#[test]
fn a_receiver_becomes_an_array() {
    let array = receiver_of(vec![Value::Null, Value::Number(5)]).into_array();
    assert_eq!(array.len(), 2);
    assert!(matches!(array.get(1), Some(Value::Number(5))));
}

//! The two ends of a channel: a context that is set once, and a stream of
//! values that is sent, closed and read in order.
//!
//! The ends modelled here hold what has been sent. A sender records the
//! context, the values and the end of the stream; what it has recorded is
//! handed to the receiving side as a whole.

use crate::lang::context::Context;
use crate::lang::context::ContextView;
use crate::lang::filter::lemma_values_play_no_part;
use crate::lang::filter::run_spec;
use crate::lang::filter::Filter;
use crate::lang::filter::Outcome;
use crate::lang::value::value_items;
use crate::lang::value::Array;
use crate::lang::value::Value;
use crate::lang::value::ValueView;
use vstd::prelude::*;

verus! {

/// Why an operation on a sender failed.
#[derive(Clone, Copy, Debug, PartialEq, Eq, Structural)]
pub enum ChannelError {
    /// The context had been set before, or the stream had been closed before.
    Closed,
    /// The receiving end is gone.
    Disconnected,
}

/// A sender as plain data.
pub struct SenderView {
    /// The context, once it has been set.
    pub context: Option<ContextView>,
    /// The values sent so far, in the order in which they were sent.
    pub values: Seq<ValueView>,
    /// Whether the stream of values has been closed.
    pub closed: bool,
    /// Whether the receiving end is still there.
    pub connected: bool,
}

/// The sending end of a channel.
pub struct Sender<P: Fn(&Filter) -> bool + Copy> {
    context: Option<Context<P>>,
    values: Vec<Value>,
    closed: bool,
    connected: bool,
}

impl<P: Fn(&Filter) -> bool + Copy> View for Sender<P> {
    type V = SenderView;

    closed spec fn view(&self) -> SenderView {
        SenderView {
            context: match self.context {
                Some(context) => Some(context@),
                None => None,
            },
            values: value_items(self.values@),
            closed: self.closed,
            connected: self.connected,
        }
    }
}

/// A receiver as plain data.
pub struct ReceiverView {
    /// The context that came with the stream.
    pub context: ContextView,
    /// The values that are still to be read, in order.
    pub values: Seq<ValueView>,
}

/// The receiving end of a channel whose context has arrived and whose stream
/// of values has been closed.
pub struct Receiver<P: Fn(&Filter) -> bool + Copy> {
    context: Context<P>,
    values: Vec<Value>,
}

impl<P: Fn(&Filter) -> bool + Copy> View for Receiver<P> {
    type V = ReceiverView;

    closed spec fn view(&self) -> ReceiverView {
        ReceiverView { context: self.context@, values: value_items(self.values@) }
    }
}

/// What a sender has become once an outcome has been delivered into it: the
/// context is set, the values stand behind those sent before if the receiving
/// end is still there, and the stream is closed.
pub open spec fn delivered(before: SenderView, outcome: Outcome) -> SenderView {
    SenderView {
        context: Some(outcome.context),
        values: if before.connected {
            before.values + outcome.values
        } else {
            before.values
        },
        closed: true,
        connected: before.connected,
    }
}

impl<P: Fn(&Filter) -> bool + Copy> Sender<P> {
    /// A context that has been set is well formed.
    pub closed spec fn well_formed(&self) -> bool {
        self.context matches Some(context) ==> context.well_formed()
    }

    /// The predicate of the context that has been set.
    pub closed spec fn policy(&self) -> Option<P> {
        match self.context {
            Some(context) => Some(context.policy()),
            None => None,
        }
    }

    /// A sender on which nothing has happened yet and whose receiving end is
    /// there.
    pub fn new() -> (sender: Sender<P>)
        ensures
            sender@ == (SenderView { context: None, values: Seq::empty(), closed: false, connected: true }),
            sender.well_formed(),
    {
        let sender = Sender { context: None, values: Vec::new(), closed: false, connected: true };
        assert(value_items(sender.values@) =~= Seq::<ValueView>::empty());
        sender
    }

    /// Sets the context. This works once; a second call fails with `Closed` and
    /// changes nothing.
    pub fn set_context(&mut self, context: Context<P>) -> (outcome: Result<(), ChannelError>)
        requires
            context.well_formed(),
        ensures
            old(self)@.context is None ==> outcome is Ok && final(self)@ == (SenderView {
                context: Some(context@),
                ..old(self)@
            }) && final(self).policy() == Some(context.policy()) && final(self).well_formed(),
            old(self)@.context is Some ==> outcome == Err::<(), ChannelError>(ChannelError::Closed) && final(self)@
                == old(self)@ && final(self).policy() == old(self).policy() && final(self).well_formed() == old(
                self,
            ).well_formed(),
    {
        if self.context.is_some() {
            Err(ChannelError::Closed)
        } else {
            self.context = Some(context);
            Ok(())
        }
    }

    /// Sends one value. On a closed stream this fails with `Closed`, on an open
    /// stream whose receiving end is gone with `Disconnected`; a failed send
    /// changes nothing.
    pub fn send(&mut self, value: Value) -> (outcome: Result<(), ChannelError>)
        ensures
            final(self).well_formed() == old(self).well_formed(),
            final(self).policy() == old(self).policy(),
            old(self)@.closed ==> outcome == Err::<(), ChannelError>(ChannelError::Closed) && final(self)@ == old(
                self,
            )@,
            !old(self)@.closed && !old(self)@.connected ==> outcome == Err::<(), ChannelError>(
                ChannelError::Disconnected,
            ) && final(self)@ == old(self)@,
            !old(self)@.closed && old(self)@.connected ==> outcome is Ok && final(self)@ == (SenderView {
                values: old(self)@.values.push(value@),
                ..old(self)@
            }),
    {
        if self.closed {
            Err(ChannelError::Closed)
        } else if !self.connected {
            Err(ChannelError::Disconnected)
        } else {
            self.values.push(value);
            assert(value_items(self.values@) =~= value_items(old(self).values@).push(value@));
            Ok(())
        }
    }

    /// Closes the stream of values. This works once; a second call fails with
    /// `Closed`.
    pub fn close(&mut self) -> (outcome: Result<(), ChannelError>)
        ensures
            final(self).well_formed() == old(self).well_formed(),
            final(self).policy() == old(self).policy(),
            final(self)@ == (SenderView { closed: true, ..old(self)@ }),
            outcome == if old(self)@.closed {
                Err::<(), ChannelError>(ChannelError::Closed)
            } else {
                Ok::<(), ChannelError>(())
            },
    {
        if self.closed {
            Err(ChannelError::Closed)
        } else {
            self.closed = true;
            Ok(())
        }
    }

    /// Tells the sender that its receiving end is gone.
    pub fn disconnect(&mut self)
        ensures
            final(self).well_formed() == old(self).well_formed(),
            final(self).policy() == old(self).policy(),
            final(self)@ == (SenderView { connected: false, ..old(self)@ }),
    {
        self.connected = false;
    }

    /// Hands what has been sent to the receiving side: the context and all
    /// values, with the stream closed behind them. There is nothing to hand
    /// over while the context is not set, or when the receiving end is gone.
    pub fn into_receiver(self) -> (receiver: Option<Receiver<P>>)
        ensures
            receiver is Some == (self@.context is Some && self@.connected),
            receiver matches Some(r) ==> r@ == (ReceiverView {
                context: self@.context->Some_0,
                values: self@.values,
            }) && r.well_formed() == self.well_formed() && Some(r.policy()) == self.policy(),
    {
        if !self.connected {
            return None;
        }
        match self.context {
            Some(context) => Some(Receiver { context, values: self.values }),
            None => None,
        }
    }
}

impl<P: Fn(&Filter) -> bool + Copy> Receiver<P> {
    /// The context is well formed.
    pub closed spec fn well_formed(&self) -> bool {
        self.context.well_formed()
    }

    /// The predicate of the context.
    pub closed spec fn policy(&self) -> P {
        self.context.policy()
    }

    /// A closed receiver with no values.
    pub fn empty(context: Context<P>) -> (receiver: Receiver<P>)
        requires
            context.well_formed(),
        ensures
            receiver@ == (ReceiverView { context: context@, values: Seq::empty() }),
            receiver.well_formed(),
            receiver.policy() == context.policy(),
    {
        let receiver = Receiver { context, values: Vec::new() };
        assert(value_items(receiver.values@) =~= Seq::<ValueView>::empty());
        receiver
    }

    /// The context that came with the stream. It can be asked for any number of
    /// times.
    pub fn context(&self) -> (context: Context<P>)
        ensures
            context@ == self@.context,
            context.policy() == self.policy(),
            self.well_formed() ==> context.well_formed(),
    {
        self.context.clone()
    }

    /// Takes the next value off the stream, or returns `None` at its end. What
    /// has been taken does not come again.
    pub fn next(&mut self) -> (value: Option<Value>)
        ensures
            final(self)@.context == old(self)@.context,
            final(self).policy() == old(self).policy(),
            final(self).well_formed() == old(self).well_formed(),
            old(self)@.values.len() > 0 ==> {
                &&& value matches Some(v)
                &&& v@ == old(self)@.values[0]
                &&& final(self)@.values == old(self)@.values.drop_first()
            },
            old(self)@.values.len() == 0 ==> value is None && final(self)@.values == old(self)@.values,
    {
        if self.values.len() > 0 {
            let value = self.values.remove(0);
            Some(value)
        } else {
            None
        }
    }

    /// All the values that are still to be read, as an array.
    pub fn into_array(self) -> (array: Array<Value>)
        ensures
            value_items(array@) == self@.values,
    {
        Array::from(self.values)
    }

    /// Two receivers in place of this one: each gets the context and every
    /// value that this one had still to give, in the same order.
    pub fn split(self) -> (both: (Receiver<P>, Receiver<P>))
        ensures
            both.0@ == self@,
            both.1@ == self@,
            both.0.policy() == self.policy(),
            both.1.policy() == self.policy(),
            self.well_formed() ==> both.0.well_formed() && both.1.well_formed(),
    {
        let mut copies: Vec<Value> = Vec::new();
        let mut i: usize = 0;
        while i < self.values.len()
            invariant
                i <= self.values@.len(),
                value_items(copies@) == value_items(self.values@).take(i as int),
            decreases self.values@.len() - i,
        {
            copies.push(self.values[i].clone());
            assert(value_items(self.values@).take(i as int + 1) =~= value_items(self.values@).take(i as int).push(
                self.values@[i as int]@,
            ));
            i += 1;
        }
        assert(value_items(self.values@).take(i as int) =~= value_items(self.values@));
        let first = Receiver { context: self.context.clone(), values: copies };
        (first, self)
    }

    /// Moves every value that is still to be read into `dst` and closes the
    /// stream of `dst` behind them; this receiver is left at its end. The
    /// context of `dst` is not touched: it is handed back with `dst` for the
    /// caller to set. Where `dst` cannot take the values, because its stream is
    /// closed or its receiving end gone, nothing is moved.
    pub fn forward_values(&mut self, dst: Sender<P>) -> (outcome: Result<Sender<P>, ChannelError>)
        ensures
            final(self)@.context == old(self)@.context,
            final(self).policy() == old(self).policy(),
            final(self).well_formed() == old(self).well_formed(),
            dst@.closed ==> (outcome matches Err(ChannelError::Closed)) && final(self)@ == old(self)@,
            !dst@.closed && !dst@.connected ==> (outcome matches Err(ChannelError::Disconnected)) && final(self)@
                == old(self)@,
            !dst@.closed && dst@.connected ==> {
                &&& outcome matches Ok(sender)
                &&& sender@ == (SenderView {
                    values: dst@.values + old(self)@.values,
                    closed: true,
                    ..dst@
                })
                &&& sender.well_formed() == dst.well_formed()
                &&& sender.policy() == dst.policy()
                &&& final(self)@.values == Seq::<ValueView>::empty()
            },
    {
        if dst.closed {
            return Err(ChannelError::Closed);
        }
        if !dst.connected {
            return Err(ChannelError::Disconnected);
        }
        let mut sender = dst;
        let mut moved: Vec<Value> = Vec::new();
        std::mem::swap(&mut self.values, &mut moved);
        let ghost before = value_items(sender.values@);
        sender.values.append(&mut moved);
        assert(value_items(sender.values@) =~= before + old(self)@.values);
        sender.closed = true;
        Ok(sender)
    }

    /// Runs `f` on an input of which only the context has arrived, and returns
    /// the receiving end of its output. No filter reads the values of its
    /// input, so the output is what `f` makes of that context with any values.
    pub fn filter_context(context: Context<P>, f: &Filter) -> (output: Receiver<P>)
        requires
            context.well_formed(),
            f@.well_formed(),
        ensures
            forall|values: Seq<ValueView>| #[trigger]
                run_spec(f@, context@, values) == (Outcome { context: output@.context, values: output@.values }),
            output.well_formed(),
    {
        let output = Receiver::empty(context).filter_sync(f);
        proof {
            assert forall|values: Seq<ValueView>| #[trigger]
                run_spec(f@, context@, values) == (Outcome {
                    context: output@.context,
                    values: output@.values,
                }) by {
                lemma_values_play_no_part(f@, context@, values, Seq::empty());
            }
        }
        output
    }

    /// Runs `f` on this receiver and returns the receiving end of its output,
    /// once `f` has finished.
    pub fn filter_sync(self, f: &Filter) -> (output: Receiver<P>)
        requires
            self.well_formed(),
            f@.well_formed(),
        ensures
            output@ == (ReceiverView {
                context: run_spec(f@, self@.context, self@.values).context,
                values: run_spec(f@, self@.context, self@.values).values,
            }),
            output.well_formed(),
        decreases f@.code_bound(), f, 1nat,
    {
        let mut sender: Sender<P> = Sender::new();
        f.run(self, &mut sender);
        sender.into_receiver().unwrap()
    }
}

} // verus!

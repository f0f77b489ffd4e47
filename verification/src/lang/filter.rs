//! The executable syntax tree and the engine that runs it.

use crate::lang::channel::delivered;
use crate::lang::channel::Receiver;
use crate::lang::channel::Sender;
use crate::lang::code::Code;
use crate::lang::context::ContextView;
use crate::lang::parser::lemma_parse_text_within;
use crate::lang::parser::parse;
use crate::lang::parser::parse_text;
use crate::lang::parser::ParseErrorView;
use crate::lang::value::lemma_value_view;
use crate::lang::value::HashableView;
use crate::lang::value::Object;
use crate::lang::value::Value;
use crate::lang::value::ValueView;
use crate::util::Labeled;
use vstd::prelude::*;
use vstd::string::StringExecFns;

verus! {

/// What a custom filter does with its attributes and its input.
#[derive(Clone, Copy, Debug, PartialEq, Eq, Structural)]
pub enum Behavior {
    /// Runs the single attribute against the same input and output, so that a
    /// parenthesised filter behaves as the filter inside.
    Group,
}

/// The behaviour of a custom filter under a name for display.
pub type FilterFn = Labeled<Behavior>;

/// An executable node of the syntax tree.
#[derive(Debug)]
pub enum Filter {
    /// Sequencing: runs `lhs`, parses `remaining_code` in the context that `lhs`
    /// produced and runs the result on the input of the whole node.
    AndThen { lhs: Box<Filter>, remaining_code: Code },
    /// A filter given by a behaviour and the filters it works with.
    Custom { attributes: Vec<Filter>, run: FilterFn },
    /// Passes no values and hands the context on unchanged.
    Empty,
}

/// A filter as plain data: source text as a sequence of characters, attribute
/// lists as sequences.
pub enum FilterView {
    AndThen { lhs: Box<FilterView>, remaining_code: Seq<char> },
    Custom { attributes: Seq<FilterView>, label: Seq<char>, run: Behavior },
    Empty,
}

/// The plain-data form of a filter.
pub open spec fn filter_view(filter: Filter) -> FilterView
    decreases filter,
{
    match filter {
        Filter::AndThen { lhs, remaining_code } => FilterView::AndThen {
            lhs: Box::new(filter_view(*lhs)),
            remaining_code: remaining_code@,
        },
        Filter::Custom { attributes, run } => FilterView::Custom {
            attributes: Seq::new(
                attributes@.len(),
                |i: int|
                    if 0 <= i < attributes@.len() {
                        filter_view(attributes@[i])
                    } else {
                        FilterView::Empty
                    },
            ),
            label: run.label_text(),
            run: run.content(),
        },
        Filter::Empty => FilterView::Empty,
    }
}

impl View for Filter {
    type V = FilterView;

    open spec fn view(&self) -> FilterView {
        filter_view(*self)
    }
}

/// The label of the filter that the parser builds for a parenthesised group.
pub open spec fn group_label() -> Seq<char> {
    "<filter group (\u{3b1})>"@
}

impl FilterView {
    /// Whether every custom node below has the number of attributes that its
    /// behaviour works with: one for a group.
    pub open spec fn well_formed(self) -> bool
        decreases self,
    {
        match self {
            FilterView::AndThen { lhs, remaining_code } => lhs.well_formed(),
            FilterView::Custom { attributes, label, run } => {
                &&& attributes.len() == 1
                &&& forall|i: int| 0 <= i < attributes.len() ==> (#[trigger] attributes[i]).well_formed()
            },
            FilterView::Empty => true,
        }
    }

    /// A bound on the source text held below: one more than the length of the
    /// longest text that a sequencing node keeps, or zero if there is none.
    pub open spec fn code_bound(self) -> nat
        decreases self,
    {
        match self {
            FilterView::AndThen { lhs, remaining_code } => {
                let inner = lhs.code_bound();
                if inner > remaining_code.len() + 1 {
                    inner
                } else {
                    remaining_code.len() + 1
                }
            },
            FilterView::Custom { attributes, label, run } => {
                if attributes.len() == 1 {
                    attributes[0].code_bound()
                } else {
                    0
                }
            },
            FilterView::Empty => 0,
        }
    }

    /// The group filter around `inner`.
    pub open spec fn group(inner: FilterView) -> FilterView {
        FilterView::Custom { attributes: seq![inner], label: group_label(), run: Behavior::Group }
    }

    /// The sequencing filter of `lhs` and the text `remaining_code`.
    pub open spec fn and_then(lhs: FilterView, remaining_code: Seq<char>) -> FilterView {
        FilterView::AndThen { lhs: Box::new(lhs), remaining_code }
    }
}

impl Filter {
    /// The group filter around `inner`, as the parser builds it for `(inner)`.
    pub fn group(inner: Filter) -> (filter: Filter)
        ensures
            filter@ == FilterView::group(inner@),
    {
        let mut attributes: Vec<Filter> = Vec::new();
        attributes.push(inner);
        let filter = Filter::Custom {
            attributes,
            run: Labeled::new("<filter group (\u{3b1})>", Behavior::Group),
        };
        assert(filter@->Custom_attributes =~= seq![inner@]);
        filter
    }

    /// The sequencing filter of `lhs` and the text `remaining_code`.
    pub fn and_then(lhs: Filter, remaining_code: Code) -> (filter: Filter)
        ensures
            filter@ == FilterView::and_then(lhs@, remaining_code@),
    {
        Filter::AndThen { lhs: Box::new(lhs), remaining_code }
    }
}

/// Whether `filter` is well formed.
fn check_filter(filter: &Filter) -> (sound: bool)
    ensures
        sound == filter@.well_formed(),
    decreases filter,
{
    match filter {
        Filter::AndThen { lhs, remaining_code } => check_filter(&**lhs),
        Filter::Custom { attributes, run } => {
            if attributes.len() != 1 {
                return false;
            }
            assert(filter@->Custom_attributes[0] == attributes@[0]@);
            check_filter(&attributes[0])
        },
        Filter::Empty => true,
    }
}

impl Filter {
    /// Whether the filter is well formed, so that it can be run.
    pub fn is_well_formed(&self) -> (sound: bool)
        ensures
            sound == self@.well_formed(),
    {
        check_filter(self)
    }
}

/// A structural copy of `filter`.
fn copy_filter(filter: &Filter) -> (copy: Filter)
    ensures
        copy@ == filter@,
    decreases filter,
{
    match filter {
        Filter::AndThen { lhs, remaining_code } => Filter::AndThen {
            lhs: Box::new(copy_filter(&**lhs)),
            remaining_code: remaining_code.clone(),
        },
        Filter::Custom { attributes, run } => {
            let mut copies: Vec<Filter> = Vec::new();
            let mut i: usize = 0;
            while i < attributes.len()
                invariant
                    i <= attributes.len(),
                    copies.len() == i,
                    forall|j: int| 0 <= j < i ==> (#[trigger] copies@[j])@ == attributes@[j]@,
                    filter matches Filter::Custom { attributes: a, .. } && a == attributes,
                decreases attributes.len() - i,
            {
                copies.push(copy_filter(&attributes[i]));
                i += 1;
            }
            let copy = Filter::Custom {
                attributes: copies,
                run: Labeled::new(run.label().as_str(), *run.get()),
            };
            assert(copy@->Custom_attributes =~= filter@->Custom_attributes);
            copy
        },
        Filter::Empty => Filter::Empty,
    }
}

impl Clone for Filter {
    /// A structural copy: the same tree over the same source text.
    fn clone(&self) -> (copy: Filter)
        ensures
            copy@ == self@,
    {
        copy_filter(self)
    }
}

// ---------------------------------------------------------------------------
// Running a filter
// ---------------------------------------------------------------------------

/// What a filter makes of its input: the context it hands on and the values it
/// puts out.
pub struct Outcome {
    pub context: ContextView,
    pub values: Seq<ValueView>,
}

/// The value that a sequencing filter puts out when its right-hand side does
/// not parse.
pub open spec fn syntax_exception() -> ValueView {
    ValueView::Exception("syntax"@, Seq::empty())
}

/// What `filter` makes of an input with the context `context` and the values
/// `values`.
///
/// The empty filter hands the context on and puts out nothing. A sequencing
/// filter runs its left-hand side on the input and keeps only the context that
/// comes out; in that context it parses its text, and the filter that results
/// is run on the values of the input, in that context. If the text does not
/// parse, the outcome is that context and one syntax exception. A group does
/// what the filter inside it does; a group that is not well formed, with no
/// filter or several inside, counts as the empty filter here and is never run.
pub open spec fn run_spec(filter: FilterView, context: ContextView, values: Seq<ValueView>) -> Outcome
    decreases filter.code_bound(), filter,
    via run_spec_decreases
{
    match filter {
        FilterView::Empty => Outcome { context, values: Seq::empty() },
        FilterView::AndThen { lhs, remaining_code } => {
            let handed_on = run_spec(*lhs, context, values).context;
            match parse_text(remaining_code, handed_on) {
                Ok(rhs) => run_spec(rhs, handed_on, values),
                Err(_) => Outcome { context: handed_on, values: seq![syntax_exception()] },
            }
        },
        FilterView::Custom { attributes, label, run } => match run {
            Behavior::Group => if attributes.len() == 1 {
                run_spec(attributes[0], context, values)
            } else {
                Outcome { context, values: Seq::empty() }
            },
        },
    }
}

#[via_fn]
proof fn run_spec_decreases(filter: FilterView, context: ContextView, values: Seq<ValueView>) {
    match filter {
        FilterView::AndThen { lhs, remaining_code } => {
            assert forall|handed_on: ContextView| (#[trigger] parse_text(remaining_code, handed_on)) is Ok implies parse_text(
                remaining_code,
                handed_on,
            )->Ok_0.code_bound() < filter.code_bound() by {
                lemma_parse_text_within(remaining_code, handed_on);
            }
        },
        _ => {},
    }
}

impl Filter {
    /// Runs the filter: reads `input`, sets the context of `output` once, sends
    /// what the filter puts out and closes the stream of `output`.
    pub fn run<P: Fn(&Filter) -> bool + Copy>(&self, input: Receiver<P>, output: &mut Sender<P>)
        requires
            self@.well_formed(),
            input.well_formed(),
            old(output)@.context is None,
            !old(output)@.closed,
        ensures
            final(output)@ == delivered(old(output)@, run_spec(self@, input@.context, input@.values)),
            final(output).well_formed(),
        decreases self@.code_bound(), self, 0nat,
    {
        match self {
            Filter::Empty => {
                let _ = output.set_context(input.context());
                let _ = output.close();
            },
            Filter::AndThen { lhs, remaining_code } => {
                // the left-hand side runs to its end; of what it puts out only the context is kept
                let (lhs_input, mut rest) = input.split();
                let handed_on = lhs_input.filter_sync(lhs).context();
                // only now can the right-hand side be parsed
                proof {
                    lemma_parse_text_within(remaining_code@, handed_on@);
                }
                match parse(remaining_code.clone(), handed_on.clone()) {
                    Err(_) => {
                        let raised = Value::Exception(String::from_str("syntax"), Object::new());
                        proof {
                            lemma_value_view(raised);
                            assert(raised@->Exception_1 =~= Seq::<(HashableView, ValueView)>::empty());
                        }
                        let _ = output.set_context(handed_on);
                        let _ = output.send(raised);
                        let _ = output.close();
                        assert(old(output)@.values.push(syntax_exception()) =~= old(output)@.values
                            + seq![syntax_exception()]);
                    },
                    Ok(rhs) => {
                        // the right-hand side reads the values of the whole filter's input,
                        // in the context that the left-hand side handed on
                        let mut feed = rest.forward_values(Sender::new()).unwrap();
                        let _ = feed.set_context(handed_on);
                        let rhs_input = feed.into_receiver().unwrap();
                        rhs.run(rhs_input, output);
                    },
                }
            },
            Filter::Custom { attributes, run } => match run.get() {
                Behavior::Group => {
                    attributes[0].run(input, output);
                },
            },
        }
    }
}

// ---------------------------------------------------------------------------
// What holds of every run
// ---------------------------------------------------------------------------

/// The empty filter puts out no values and hands on the context it was given,
/// whatever the context and the input.
pub proof fn lemma_empty_filter_is_neutral(context: ContextView, values: Seq<ValueView>)
    ensures
        run_spec(FilterView::Empty, context, values) == (Outcome { context, values: Seq::empty() }),
{
}

/// Blank text parses to the empty filter wherever the policy permits it, so
/// that parsing and running it changes nothing.
pub proof fn lemma_no_text_is_neutral(context: ContextView, values: Seq<ValueView>)
    requires
        context.allows(FilterView::Empty),
    ensures
        parse_text(Seq::empty(), context) == Ok::<FilterView, ParseErrorView>(FilterView::Empty),
        run_spec(parse_text(Seq::empty(), context)->Ok_0, context, values) == (Outcome {
            context,
            values: Seq::empty(),
        }),
{
}

/// The right-hand side of a sequencing filter is parsed in the context that
/// the left-hand side hands on, not in the context of the input. If it parses,
/// the outcome is that of the parsed filter run in that context; if it does
/// not, the outcome is that context and one syntax exception.
pub proof fn lemma_sequencing_threads_context(
    lhs: FilterView,
    code: Seq<char>,
    context: ContextView,
    values: Seq<ValueView>,
)
    ensures
        ({
            let handed_on = run_spec(lhs, context, values).context;
            let whole = run_spec(FilterView::and_then(lhs, code), context, values);
            match parse_text(code, handed_on) {
                Ok(rhs) => whole == run_spec(rhs, handed_on, values),
                Err(_) => whole == (Outcome { context: handed_on, values: seq![syntax_exception()] }),
            }
        }),
{
}

/// The right-hand side of a sequencing filter reads the values of the input of
/// the whole filter. What the left-hand side puts out plays no part: two left
/// hand sides that hand on the same context give the same outcome.
pub proof fn lemma_sequencing_reads_the_input(
    first: FilterView,
    second: FilterView,
    code: Seq<char>,
    context: ContextView,
    values: Seq<ValueView>,
)
    requires
        run_spec(first, context, values).context == run_spec(second, context, values).context,
    ensures
        run_spec(FilterView::and_then(first, code), context, values) == run_spec(
            FilterView::and_then(second, code),
            context,
            values,
        ),
        parse_text(code, run_spec(first, context, values).context) matches Ok(rhs) ==> run_spec(
            FilterView::and_then(first, code),
            context,
            values,
        ) == run_spec(rhs, run_spec(first, context, values).context, values),
{
}

/// A group runs as the filter inside it: the same values come out and the same
/// context is handed on, whatever the input.
pub proof fn lemma_group_is_transparent(inner: FilterView, context: ContextView, values: Seq<ValueView>)
    ensures
        run_spec(FilterView::group(inner), context, values) == run_spec(inner, context, values),
{
}

/// No filter reads the values of its input: what comes out, and the context
/// that is handed on, are the same whatever values go in. A filter can
/// therefore be run as soon as the context of its input has arrived.
pub proof fn lemma_values_play_no_part(
    filter: FilterView,
    context: ContextView,
    first: Seq<ValueView>,
    second: Seq<ValueView>,
)
    ensures
        run_spec(filter, context, first) == run_spec(filter, context, second),
    decreases filter.code_bound(), filter,
{
    match filter {
        FilterView::Empty => {},
        FilterView::AndThen { lhs, remaining_code } => {
            lemma_values_play_no_part(*lhs, context, first, second);
            let handed_on = run_spec(*lhs, context, first).context;
            lemma_parse_text_within(remaining_code, handed_on);
            match parse_text(remaining_code, handed_on) {
                Ok(rhs) => {
                    lemma_values_play_no_part(rhs, handed_on, first, second);
                },
                Err(_) => {},
            }
        },
        FilterView::Custom { attributes, label, run } => {
            if attributes.len() == 1 {
                lemma_values_play_no_part(attributes[0], context, first, second);
            }
        },
    }
}

} // verus!

//! Small helpers shared by the language modules.

use vstd::prelude::*;
use vstd::string::StringExecFns;

verus! {

/// A value that carries a name for display. Two labeled values are told apart
/// by both the label and the value.
#[derive(Debug)]
pub struct Labeled<T> {
    label: String,
    value: T,
}

impl<T> Labeled<T> {
    /// The text of the label.
    pub closed spec fn label_text(&self) -> Seq<char> {
        self.label@
    }

    /// The value that the label is attached to.
    pub closed spec fn content(&self) -> T {
        self.value
    }

    /// Attaches `label` to `value`.
    pub fn new(label: &str, value: T) -> (labeled: Labeled<T>)
        ensures
            labeled.label_text() == label@,
            labeled.content() == value,
    {
        Labeled { label: String::from_str(label), value }
    }

    /// The label.
    pub fn label(&self) -> (label: &String)
        ensures
            label@ == self.label_text(),
    {
        &self.label
    }

    /// The value under the label.
    pub fn get(&self) -> (value: &T)
        ensures
            *value == self.content(),
    {
        &self.value
    }

    /// Replaces the value under the label and keeps the label.
    pub fn set(&mut self, value: T)
        ensures
            final(self).content() == value,
            final(self).label_text() == old(self).label_text(),
    {
        self.value = value;
    }

    /// Gives the value back and drops the label.
    pub fn into_inner(self) -> (value: T)
        ensures
            value == self.content(),
    {
        self.value
    }
}

impl<T> From<T> for Labeled<T> {
    /// A value under the empty label.
    fn from(value: T) -> (labeled: Labeled<T>)
        ensures
            labeled.label_text() == Seq::<char>::empty(),
            labeled.content() == value,
    {
        Labeled { label: String::new(), value }
    }
}

/// What `from` gives is said by its own contract: no spec function names the
/// labeled value.
impl<T> vstd::std_specs::convert::FromSpecImpl<T> for Labeled<T> {
    open spec fn obeys_from_spec() -> bool {
        false
    }

    open spec fn from_spec(value: T) -> Labeled<T> {
        arbitrary()
    }
}

} // verus!

//! The text of a value, as a prompt prints it.

use crate::lang::value::array::lemma_item_decreases;
use crate::lang::value::hashable_entries;
use crate::lang::value::hashable_items;
use crate::lang::value::lemma_hashable_view;
use crate::lang::value::lemma_value_view;
use crate::lang::value::object::lemma_entry_decreases;
use crate::lang::value::object::Object;
use crate::lang::value::value_entries;
use crate::lang::value::value_items;
use crate::lang::value::HashableValue;
use crate::lang::value::HashableView;
use crate::lang::value::Value;
use crate::lang::value::ValueView;
use vstd::prelude::*;
use vstd::string::StringExecFns;

verus! {

/// A string as its debug form shows it: in double quotes, with what needs it
/// escaped.
pub uninterp spec fn quoted(text: Seq<char>) -> Seq<char>;

/// `format!` with `{:?}` on a string: the string in double quotes, escaped as
/// the debug form of `str` escapes it.
#[verifier::external_body]
fn quote(text: &String) -> (shown: String)
    ensures
        shown@ == quoted(text@),
{
    format!("{:?}", text)
}

/// The text of one decimal digit.
pub open spec fn digit_text(digit: int) -> Seq<char> {
    if digit == 0 {
        "0"@
    } else if digit == 1 {
        "1"@
    } else if digit == 2 {
        "2"@
    } else if digit == 3 {
        "3"@
    } else if digit == 4 {
        "4"@
    } else if digit == 5 {
        "5"@
    } else if digit == 6 {
        "6"@
    } else if digit == 7 {
        "7"@
    } else if digit == 8 {
        "8"@
    } else {
        "9"@
    }
}

/// The decimal digits of a natural number, without leading zeros.
pub open spec fn digits_text(number: nat) -> Seq<char>
    decreases number,
{
    if number < 10 {
        digit_text(number as int)
    } else {
        digits_text(number / 10) + digit_text((number % 10) as int)
    }
}

/// A whole number in decimal, with a minus sign if it is negative.
pub open spec fn decimal_text(number: int) -> Seq<char> {
    if number < 0 {
        "-"@ + digits_text((-number) as nat)
    } else {
        digits_text(number as nat)
    }
}

/// The text of a value.
///
/// An exception is `raise` and its quoted name, followed, if anything is known
/// about it, by a blank and that in braces. `null`, `true` and `false` stand for
/// themselves, a number is written in decimal and a string in quotes. An array
/// is its items in square brackets, an object its entries in braces, each as
/// key, colon, blank and value; items and entries are separated by a comma and
/// a blank and keep their order. A function is `def (...)`.
pub open spec fn shown(value: ValueView) -> Seq<char>
    decreases value,
{
    match value {
        ValueView::Exception(name, meta) => "raise "@ + quoted(name) + (if meta.len() > 0 {
            " {"@ + shown_entries(meta) + "}"@
        } else {
            Seq::empty()
        }),
        ValueView::Null => "null"@,
        ValueView::Boolean(b) => if b {
            "true"@
        } else {
            "false"@
        },
        ValueView::Number(n) => decimal_text(n as int),
        ValueView::String(s) => quoted(s),
        ValueView::Array(items) => "["@ + shown_items(items) + "]"@,
        ValueView::Object(entries) => "{"@ + shown_entries(entries) + "}"@,
        ValueView::Function => "def (...)"@,
    }
}

/// The texts of the values of a list, separated by a comma and a blank.
pub open spec fn shown_items(items: Seq<ValueView>) -> Seq<char>
    decreases items,
{
    if items.len() == 0 {
        Seq::empty()
    } else if items.len() == 1 {
        shown(items[0])
    } else {
        shown_items(items.drop_last()) + ", "@ + shown(items.last())
    }
}

/// The texts of the entries of a list, separated by a comma and a blank.
pub open spec fn shown_entries(entries: Seq<(HashableView, ValueView)>) -> Seq<char>
    decreases entries,
{
    if entries.len() == 0 {
        Seq::empty()
    } else if entries.len() == 1 {
        shown_hashable(entries[0].0) + ": "@ + shown(entries[0].1)
    } else {
        shown_entries(entries.drop_last()) + ", "@ + (shown_hashable(entries.last().0) + ": "@ + shown(
            entries.last().1,
        ))
    }
}

/// The text of a hashable value: that of the value it stands for.
pub open spec fn shown_hashable(value: HashableView) -> Seq<char>
    decreases value,
{
    match value {
        HashableView::Exception(name, meta) => "raise "@ + quoted(name) + (if meta.len() > 0 {
            " {"@ + shown_entries(meta) + "}"@
        } else {
            Seq::empty()
        }),
        HashableView::Null => "null"@,
        HashableView::Boolean(b) => if b {
            "true"@
        } else {
            "false"@
        },
        HashableView::Number(n) => decimal_text(n as int),
        HashableView::String(s) => quoted(s),
        HashableView::Array(items) => "["@ + shown_hashable_items(items) + "]"@,
        HashableView::Object(entries) => "{"@ + shown_hashable_entries(entries) + "}"@,
    }
}

/// The texts of the hashable values of a list, separated by a comma and a
/// blank.
pub open spec fn shown_hashable_items(items: Seq<HashableView>) -> Seq<char>
    decreases items,
{
    if items.len() == 0 {
        Seq::empty()
    } else if items.len() == 1 {
        shown_hashable(items[0])
    } else {
        shown_hashable_items(items.drop_last()) + ", "@ + shown_hashable(items.last())
    }
}

/// The texts of the entries of a list, separated by a comma and a blank.
pub open spec fn shown_hashable_entries(entries: Seq<(HashableView, HashableView)>) -> Seq<char>
    decreases entries,
{
    if entries.len() == 0 {
        Seq::empty()
    } else if entries.len() == 1 {
        shown_hashable(entries[0].0) + ": "@ + shown_hashable(entries[0].1)
    } else {
        shown_hashable_entries(entries.drop_last()) + ", "@ + (shown_hashable(entries.last().0) + ": "@
            + shown_hashable(entries.last().1))
    }
}

/// How the text of a list of values grows with one more item.
pub proof fn lemma_shown_items_step(items: Seq<ValueView>, i: int)
    requires
        0 <= i < items.len(),
    ensures
        shown_items(items.take(i + 1)) == if i == 0 {
            shown(items[i])
        } else {
            shown_items(items.take(i)) + ", "@ + shown(items[i])
        },
{
    assert(items.take(i + 1).drop_last() =~= items.take(i));
}

/// How the text of a list of entries grows with one more entry.
pub proof fn lemma_shown_entries_step(entries: Seq<(HashableView, ValueView)>, i: int)
    requires
        0 <= i < entries.len(),
    ensures
        shown_entries(entries.take(i + 1)) == if i == 0 {
            shown_hashable(entries[i].0) + ": "@ + shown(entries[i].1)
        } else {
            shown_entries(entries.take(i)) + ", "@ + (shown_hashable(entries[i].0) + ": "@ + shown(entries[i].1))
        },
{
    assert(entries.take(i + 1).drop_last() =~= entries.take(i));
}

/// How the text of a list of hashable values grows with one more item.
pub proof fn lemma_shown_hashable_items_step(items: Seq<HashableView>, i: int)
    requires
        0 <= i < items.len(),
    ensures
        shown_hashable_items(items.take(i + 1)) == if i == 0 {
            shown_hashable(items[i])
        } else {
            shown_hashable_items(items.take(i)) + ", "@ + shown_hashable(items[i])
        },
{
    assert(items.take(i + 1).drop_last() =~= items.take(i));
}

/// How the text of a list of hashable entries grows with one more entry.
pub proof fn lemma_shown_hashable_entries_step(entries: Seq<(HashableView, HashableView)>, i: int)
    requires
        0 <= i < entries.len(),
    ensures
        shown_hashable_entries(entries.take(i + 1)) == if i == 0 {
            shown_hashable(entries[i].0) + ": "@ + shown_hashable(entries[i].1)
        } else {
            shown_hashable_entries(entries.take(i)) + ", "@ + (shown_hashable(entries[i].0) + ": "@
                + shown_hashable(entries[i].1))
        },
{
    assert(entries.take(i + 1).drop_last() =~= entries.take(i));
}

/// The text of a digit.
fn digit_str(digit: u64) -> (text: &'static str)
    requires
        digit < 10,
    ensures
        text@ == digit_text(digit as int),
{
    if digit == 0 {
        "0"
    } else if digit == 1 {
        "1"
    } else if digit == 2 {
        "2"
    } else if digit == 3 {
        "3"
    } else if digit == 4 {
        "4"
    } else if digit == 5 {
        "5"
    } else if digit == 6 {
        "6"
    } else if digit == 7 {
        "7"
    } else if digit == 8 {
        "8"
    } else {
        "9"
    }
}

/// Writes the decimal digits of `number` behind `out`.
fn push_digits(out: &mut String, number: u64)
    ensures
        final(out)@ == old(out)@ + digits_text(number as nat),
    decreases number,
{
    if number >= 10 {
        push_digits(out, number / 10);
    }
    out.append(digit_str(number % 10));
}

/// Writes `number` in decimal behind `out`.
fn push_decimal(out: &mut String, number: i64)
    ensures
        final(out)@ == old(out)@ + decimal_text(number as int),
{
    if number < 0 {
        out.append("-");
        let magnitude: u64 = if number == i64::MIN {
            9223372036854775808u64
        } else {
            (-number) as u64
        };
        push_digits(out, magnitude);
    } else {
        push_digits(out, number as u64);
    }
}

/// Writes the text of `value` behind `out`.
fn show_value(out: &mut String, value: &Value)
    ensures
        final(out)@ == old(out)@ + shown(value@),
    decreases value,
{
    proof {
        lemma_value_view(*value);
    }
    match value {
        Value::Exception(name, meta) => {
            out.append("raise ");
            let name_text = quote(name);
            out.append(name_text.as_str());
            if meta.len() > 0 {
                out.append(" {");
                show_entries(out, meta);
                out.append("}");
            }
        },
        Value::Null => {
            out.append("null");
        },
        Value::Boolean(b) => {
            if *b {
                out.append("true");
            } else {
                out.append("false");
            }
        },
        Value::Number(n) => {
            push_decimal(out, *n);
        },
        Value::String(s) => {
            let text = quote(s);
            out.append(text.as_str());
        },
        Value::Array(items) => {
            out.append("[");
            let ghost views = value_items(items@);
            let ghost base = out@;
            let mut i: usize = 0;
            while i < items.len()
                invariant
                    i <= items@.len(),
                    value == Value::Array(*items),
                    views == value_items(items@),
                    out@ == base + shown_items(views.take(i as int)),
                decreases items@.len() - i,
            {
                proof {
                    lemma_item_decreases(*items, i as int);
                    assert(decreases_to!(value => value->Array_0));
                    lemma_shown_items_step(views, i as int);
                }
                if i > 0 {
                    out.append(", ");
                }
                show_value(out, items.get(i).unwrap());
                i += 1;
            }
            assert(views.take(i as int) =~= views);
            out.append("]");
        },
        Value::Object(entries) => {
            out.append("{");
            show_entries(out, entries);
            out.append("}");
        },
        Value::Function => {
            out.append("def (...)");
        },
    }
}

/// Writes the texts of the entries of `entries` behind `out`, separated by a
/// comma and a blank.
fn show_entries(out: &mut String, entries: &Object<HashableValue, Value>)
    ensures
        final(out)@ == old(out)@ + shown_entries(value_entries(entries@)),
    decreases entries,
{
    let ghost views = value_entries(entries@);
    let ghost base = out@;
    let mut i: usize = 0;
    while i < entries.len()
        invariant
            i <= entries@.len(),
            views == value_entries(entries@),
            out@ == base + shown_entries(views.take(i as int)),
        decreases entries@.len() - i,
    {
        proof {
            lemma_entry_decreases(*entries, i as int);
            lemma_shown_entries_step(views, i as int);
        }
        if i > 0 {
            out.append(", ");
        }
        let (key, held) = entries.get_idx(i).unwrap();
        show_hashable(out, key);
        out.append(": ");
        show_value(out, held);
        i += 1;
    }
    assert(views.take(i as int) =~= views);
}

/// Writes the text of `value` behind `out`.
fn show_hashable(out: &mut String, value: &HashableValue)
    ensures
        final(out)@ == old(out)@ + shown_hashable(value@),
    decreases value,
{
    proof {
        lemma_hashable_view(*value);
    }
    match value {
        HashableValue::Exception(name, meta) => {
            out.append("raise ");
            let name_text = quote(name);
            out.append(name_text.as_str());
            if meta.len() > 0 {
                out.append(" {");
                show_entries(out, meta);
                out.append("}");
            }
        },
        HashableValue::Null => {
            out.append("null");
        },
        HashableValue::Boolean(b) => {
            if *b {
                out.append("true");
            } else {
                out.append("false");
            }
        },
        HashableValue::Number(n) => {
            push_decimal(out, *n);
        },
        HashableValue::String(s) => {
            let text = quote(s);
            out.append(text.as_str());
        },
        HashableValue::Array(items) => {
            out.append("[");
            let ghost views = hashable_items(items@);
            let ghost base = out@;
            let mut i: usize = 0;
            while i < items.len()
                invariant
                    i <= items@.len(),
                    value == HashableValue::Array(*items),
                    views == hashable_items(items@),
                    out@ == base + shown_hashable_items(views.take(i as int)),
                decreases items@.len() - i,
            {
                proof {
                    lemma_item_decreases(*items, i as int);
                    assert(decreases_to!(value => value->Array_0));
                    lemma_shown_hashable_items_step(views, i as int);
                }
                if i > 0 {
                    out.append(", ");
                }
                show_hashable(out, items.get(i).unwrap());
                i += 1;
            }
            assert(views.take(i as int) =~= views);
            out.append("]");
        },
        HashableValue::Object(entries) => {
            out.append("{");
            let ghost views = hashable_entries(entries@);
            let ghost base = out@;
            let mut i: usize = 0;
            while i < entries.len()
                invariant
                    i <= entries@.len(),
                    value == HashableValue::Object(*entries),
                    views == hashable_entries(entries@),
                    out@ == base + shown_hashable_entries(views.take(i as int)),
                decreases entries@.len() - i,
            {
                proof {
                    lemma_entry_decreases(*entries, i as int);
                    assert(decreases_to!(value => value->Object_0));
                    lemma_shown_hashable_entries_step(views, i as int);
                }
                if i > 0 {
                    out.append(", ");
                }
                let (key, held) = entries.get_idx(i).unwrap();
                show_hashable(out, key);
                out.append(": ");
                show_hashable(out, held);
                i += 1;
            }
            assert(views.take(i as int) =~= views);
            out.append("}");
        },
    }
}

impl Value {
    /// The text of the value, as a prompt prints it.
    pub fn to_string(&self) -> (text: String)
        ensures
            text@ == shown(self@),
    {
        let mut text = String::new();
        show_value(&mut text, self);
        text
    }
}

impl HashableValue {
    /// The text of the value: that of the value it stands for.
    pub fn to_string(&self) -> (text: String)
        ensures
            text@ == shown_hashable(self@),
    {
        let mut text = String::new();
        show_hashable(&mut text, self);
        text
    }
}

} // verus!

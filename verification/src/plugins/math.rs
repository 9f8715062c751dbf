//! Inline calculator: queries starting with `=`.

use vstd::prelude::*;

use super::{
    Entry, EntryKind, EntryModel, KindModel, Launch, Plugin, clipboard_launch_of,
    copy_to_clipboard, launches_are,
};
use crate::text::{chars_of, strip_leading, strip_leading_span, string_of, trim, trim_span};

verus! {

/// The expression of a calculator query: the input without its leading `=`
/// signs, trimmed; `None` when nothing is left.
pub open spec fn math_expression(input: Seq<char>) -> Option<Seq<char>> {
    let e = trim(strip_leading(input, '='));
    if e.len() == 0 {
        None
    } else {
        Some(e)
    }
}

/// The entry that shows the value `display` of the expression `expr`.
pub open spec fn math_entry(expr: Seq<char>, display: Seq<char>) -> EntryModel {
    EntryModel {
        name: display,
        description: Some("= "@ + expr),
        icon: Some("accessories-calculator"@),
        kind: KindModel::MathResult { value: display },
        priority: 0,
        keywords: None,
    }
}

/// The calculator plugin; `clipboard` is the command that copies a result.
pub struct MathPlugin {
    pub clipboard: Vec<String>,
}

impl MathPlugin {
    pub fn new(clipboard: Vec<String>) -> (r: Self)
        ensures
            r.clipboard == clipboard,
    {
        MathPlugin { clipboard }
    }

    /// The expression a query asks to evaluate, if any.
    pub fn expression(input: &str) -> (r: Option<String>)
        ensures
            match r {
                Some(e) => math_expression(input@) == Some(e@),
                None => math_expression(input@) is None,
            },
    {
        let v = chars_of(input);
        let a = strip_leading_span(&v, 0, v.len(), '=');
        assert(v@.subrange(0, v@.len() as int) =~= v@);
        let (lo, hi) = trim_span(&v, a, v.len());
        if lo == hi {
            None
        } else {
            Some(string_of(&v, lo, hi))
        }
    }

    /// The entry for the expression `expr` whose value reads `display`.
    pub fn result_entry(expr: &str, display: &str) -> (r: Entry)
        ensures
            r@ == math_entry(expr@, display@),
    {
        let mut description = String::from_str("= ");
        description.append(expr);
        Entry {
            name: String::from_str(display),
            description: Some(description),
            icon: Some(String::from_str("accessories-calculator")),
            kind: EntryKind::MathResult { value: String::from_str(display) },
            priority: 0,
            keywords: None,
        }
    }
}

impl Plugin for MathPlugin {
    fn name(&self) -> (r: String)
        ensures
            r@ == "math"@,
    {
        String::from_str("math")
    }

    fn launch(&self, entry: &Entry) -> (r: Vec<Launch>)
        ensures
            r@.len() <= 1,
            match entry@.kind {
                KindModel::MathResult { value } => match clipboard_launch_of(
                    value,
                    self.clipboard.deep_view(),
                ) {
                    Some(l) => r@.len() == 1 && r@[0]@ == l,
                    None => r@.len() == 0,
                },
                _ => r@.len() == 0,
            },
    {
        let mut out: Vec<Launch> = Vec::new();
        if let EntryKind::MathResult { value } = &entry.kind {
            if let Some(l) = copy_to_clipboard(value.as_str(), &self.clipboard) {
                out.push(l);
            }
        }
        out
    }
}

} // verus!

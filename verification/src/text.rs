//! An immutable string used for node names, field names and error messages.

use crate::model::lex_lt;
use crate::model::lex_lt_at;
use vstd::prelude::*;
use vstd::string::StrSliceExecFns;

verus! {

/// How one text stands to another in lexicographic order.
#[derive(Debug, PartialEq, Eq)]
pub enum TextOrder {
    Before,
    Same,
    After,
}

/// An immutable string, compared by content.
///
/// Its view is the sequence of characters it holds.
#[derive(Debug, PartialEq, Eq)]
pub struct Text {
    chars: String,
}

impl View for Text {
    type V = Seq<char>;

    closed spec fn view(&self) -> Seq<char> {
        self.chars@
    }
}

impl Text {
    /// Builds a `Text` from a string slice.
    pub fn new(s: &str) -> (t: Text)
        ensures
            t@ == s@,
    {
        Text { chars: s.to_owned() }
    }

    /// The content as a string slice.
    pub fn as_str(&self) -> (r: &str)
        ensures
            r@ == self@,
    {
        self.chars.as_str()
    }

    /// Content equality.
    pub fn eq_text(&self, other: &Text) -> (r: bool)
        ensures
            r == (self@ == other@),
    {
        self.chars == other.chars
    }

    /// Lexicographic three-way comparison, character by character.
    pub fn compare(&self, other: &Text) -> (r: TextOrder)
        ensures
            r is Before ==> lex_lt(self@, other@),
            r is Same ==> self@ == other@,
            r is After ==> lex_lt(other@, self@),
    {
        let a = self.chars.as_str();
        let b = other.chars.as_str();
        let n1 = a.unicode_len();
        let n2 = b.unicode_len();
        let mut i: usize = 0;
        while i < n1 && i < n2
            invariant
                0 <= i <= n1,
                0 <= i <= n2,
                n1 == a@.len(),
                n2 == b@.len(),
                a@ == self@,
                b@ == other@,
                forall|j: int| 0 <= j < i ==> a@[j] == b@[j],
            decreases n1 - i,
        {
            let c1 = a.get_char(i);
            let c2 = b.get_char(i);
            if c1 != c2 {
                if c1 < c2 {
                    assert(lex_lt_at(a@, b@, i as int));
                    return TextOrder::Before;
                } else {
                    assert(lex_lt_at(b@, a@, i as int));
                    return TextOrder::After;
                }
            }
            i += 1;
        }
        if n1 < n2 {
            assert(lex_lt_at(a@, b@, i as int));
            TextOrder::Before
        } else if n2 < n1 {
            assert(lex_lt_at(b@, a@, i as int));
            TextOrder::After
        } else {
            assert(a@ =~= b@);
            TextOrder::Same
        }
    }
}

impl Clone for Text {
    fn clone(&self) -> (r: Self)
        ensures
            r@ == self@,
    {
        Text { chars: self.chars.clone() }
    }
}

} // verus!

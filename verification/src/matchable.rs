//! What can stand in a list of haystacks.
use vstd::prelude::*;
use vstd::utf8::encode_utf8;

verus! {

/// An item of a list, with the text to match, if it has one.
pub trait Matchable {
    /// The bytes of the text.
    spec fn text(&self) -> Option<Seq<u8>>;

    /// The text, or nothing where the item is to be skipped.
    fn match_str(&self) -> (out: Option<&str>)
        ensures
            match out {
                Some(text) => self.text() == Some(encode_utf8(text@)),
                None => self.text() is None,
            },
    ;
}

impl<'a> Matchable for &'a str {
    open spec fn text(&self) -> Option<Seq<u8>> {
        Some(encode_utf8(self@))
    }

    fn match_str(&self) -> (out: Option<&str>) {
        Some(*self)
    }
}

impl Matchable for String {
    open spec fn text(&self) -> Option<Seq<u8>> {
        Some(encode_utf8(self@))
    }

    fn match_str(&self) -> (out: Option<&str>) {
        Some(self.as_str())
    }
}

impl<'a> Matchable for Option<&'a str> {
    open spec fn text(&self) -> Option<Seq<u8>> {
        match self {
            Some(text) => Some(encode_utf8(text@)),
            None => None,
        }
    }

    fn match_str(&self) -> (out: Option<&str>) {
        *self
    }
}

/// The texts of some items.
pub open spec fn texts_of<S: Matchable>(items: Seq<S>) -> Seq<Option<Seq<u8>>> {
    items.map_values(|item: S| item.text())
}

/// The text of a string is all of its bytes, whether it is owned, borrowed or optional. Only an
/// item that is nothing has no text.
pub proof fn lemma_text_is_the_whole_string(borrowed: &str, owned: String)
    ensures
        borrowed.text() == Some(encode_utf8(borrowed@)),
        owned.text() == Some(encode_utf8(owned@)),
        Some(borrowed).text() == Some(encode_utf8(borrowed@)),
        None::<&str>.text() is None,
{
}

/// The texts of a list stand in the order of its items.
pub proof fn lemma_texts_stand_in_order<S: Matchable>(items: Seq<S>, i: int)
    requires
        0 <= i < items.len(),
    ensures
        texts_of(items).len() == items.len(),
        texts_of(items)[i] == items[i].text(),
{
}

} // verus!

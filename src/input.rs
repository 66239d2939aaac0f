use vstd::prelude::*;

verus! {

/// Relies on `String::push`: it appends the given `char` to the end of the
/// string.
pub assume_specification[ String::push ](s: &mut String, ch: char)
    ensures
        final(s)@ == old(s)@.push(ch),
;

/// A text value that a transform can take by value: an owned `String` or a
/// borrowed `&str`.
pub trait TextSource: View<V = Seq<char>> + Sized {
    /// The text as an owned `String`, holding the same characters.
    fn into_text(self) -> (r: String)
        ensures
            r@ == self@,
    ;
}

impl TextSource for String {
    fn into_text(self) -> (r: String) {
        self
    }
}

impl<'a> TextSource for &'a str {
    fn into_text(self) -> (r: String) {
        self.to_owned()
    }
}

} // verus!

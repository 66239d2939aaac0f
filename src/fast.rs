use vstd::prelude::*;

use crate::input::TextSource;

verus! {

/// Whether `c` is one of the two angle brackets.
pub open spec fn is_bracket(c: char) -> bool {
    c == '<' || c == '>'
}

/// The characters of `s` other than `<` and `>`, in order.
pub open spec fn brackets_removed(s: Seq<char>) -> Seq<char> {
    s.filter(|c: char| !is_bracket(c))
}

/// A text without brackets loses nothing.
proof fn lemma_brackets_removed_plain_text(t: Seq<char>)
    requires
        forall|i: int| 0 <= i < t.len() ==> !is_bracket(t[i]),
    ensures
        brackets_removed(t) == t,
    decreases t.len(),
{
    reveal(Seq::filter);
    if t.len() > 0 {
        lemma_brackets_removed_plain_text(t.drop_last());
        assert(t.drop_last().push(t.last()) =~= t);
    }
}

/// Removing brackets is idempotent: the output holds no bracket, so a second
/// pass keeps all of it.
pub proof fn lemma_brackets_removed_idempotent(s: Seq<char>)
    ensures
        brackets_removed(brackets_removed(s)) == brackets_removed(s),
{
    let t = brackets_removed(s);
    assert forall|i: int| 0 <= i < t.len() implies !is_bracket(t[i]) by {
        s.lemma_filter_pred(|c: char| !is_bracket(c), i);
    }
    lemma_brackets_removed_plain_text(t);
}

/// Removing brackets never makes a text longer.
pub proof fn lemma_brackets_removed_len(s: Seq<char>)
    ensures
        brackets_removed(s).len() <= s.len(),
{
    s.lemma_filter_len(|c: char| !is_bracket(c));
}

/// Removes every `<` and `>`, so that html tags are no longer interpreted as
/// html. Every other character is kept, in order. Runs in O(n).
pub fn remove_brackets<T: TextSource>(input: T) -> (r: String)
    ensures
        r@ == brackets_removed(input@),
        r@.len() <= input@.len(),
{
    let ghost src = input@;
    let text = input.into_text();
    let mut out = String::new();
    for c in it: text.chars()
        invariant
            it.seq() == src,
            out@ == brackets_removed(src.take(it.index() as int)),
    {
        proof {
            let k = it.index() as int;
            assert(src.take(k + 1).drop_last() == src.take(k));
            reveal(Seq::filter);
        }
        if c != '<' && c != '>' {
            out.push(c);
        }
    }
    proof {
        assert(src.take(src.len() as int) == src);
        lemma_brackets_removed_len(src);
    }
    out
}

} // verus!

use vstd::prelude::*;

use vstd::string::StringExecFns;

verus! {

/// `s` with each occurrence of `from` replaced by `to`.
pub open spec fn replace_char(s: Seq<char>, from: char, to: Seq<char>) -> Seq<char>
    decreases s.len(),
{
    if s.len() == 0 {
        Seq::empty()
    } else {
        replace_char(s.drop_last(), from, to) + if s.last() == from {
            to
        } else {
            seq![s.last()]
        }
    }
}

/// The text that stands for `<`: `&lt;`.
pub open spec fn lt_entity() -> Seq<char> {
    seq!['&', 'l', 't', ';']
}

/// The text that stands for `>`: `&rt;`, a long-standing choice over the
/// conventional `&gt;` that callers may depend on.
pub open spec fn rt_entity() -> Seq<char> {
    seq!['&', 'r', 't', ';']
}

/// `s` with every `<` written as `&lt;`, and then, in that result, every `>`
/// written as `&rt;`.
pub open spec fn entity_encoded(s: Seq<char>) -> Seq<char> {
    replace_char(replace_char(s, '<', lt_entity()), '>', rt_entity())
}

/// Whether `c` does not occur in `s`.
pub open spec fn lacks(s: Seq<char>, c: char) -> bool {
    forall|i: int| 0 <= i < s.len() ==> s[i] != c
}

/// Replacing by a text of one character or more never shortens.
pub proof fn lemma_replace_char_len(s: Seq<char>, from: char, to: Seq<char>)
    requires
        to.len() >= 1,
    ensures
        replace_char(s, from, to).len() >= s.len(),
    decreases s.len(),
{
    if s.len() > 0 {
        lemma_replace_char_len(s.drop_last(), from, to);
    }
}

/// Replacing a character that does not occur changes nothing.
pub proof fn lemma_replace_char_absent(s: Seq<char>, from: char, to: Seq<char>)
    requires
        lacks(s, from),
    ensures
        replace_char(s, from, to) == s,
    decreases s.len(),
{
    if s.len() > 0 {
        lemma_replace_char_absent(s.drop_last(), from, to);
        assert(s.drop_last().push(s.last()) =~= s);
    }
}

/// A character that neither the replacement nor the kept characters hold is
/// not in the result.
pub proof fn lemma_replace_char_lacks(s: Seq<char>, from: char, to: Seq<char>, c: char)
    requires
        lacks(to, c),
        c == from || lacks(s, c),
    ensures
        lacks(replace_char(s, from, to), c),
    decreases s.len(),
{
    if s.len() > 0 {
        let head = s.drop_last();
        assert(c == from || lacks(head, c)) by {
            if c != from {
                assert forall|i: int| 0 <= i < head.len() implies head[i] != c by {
                    assert(head[i] == s[i]);
                }
            }
        }
        lemma_replace_char_lacks(head, from, to, c);
        let done = replace_char(head, from, to);
        let tail = if s.last() == from {
            to
        } else {
            seq![s.last()]
        };
        assert forall|i: int| 0 <= i < done.len() + tail.len() implies (done + tail)[i] != c by {
            if i >= done.len() {
                assert((done + tail)[i] == tail[i - done.len()]);
            }
        }
    }
}

/// The encoding holds neither `<` nor `>`.
pub proof fn lemma_entity_encoded_lacks_brackets(s: Seq<char>)
    ensures
        lacks(entity_encoded(s), '<'),
        lacks(entity_encoded(s), '>'),
{
    let once = replace_char(s, '<', lt_entity());
    lemma_replace_char_lacks(s, '<', lt_entity(), '<');
    lemma_replace_char_lacks(once, '>', rt_entity(), '<');
    lemma_replace_char_lacks(once, '>', rt_entity(), '>');
}

/// Encoding leaves a text without `<` and `>` as it is.
pub proof fn lemma_entity_encoded_plain_text(s: Seq<char>)
    requires
        lacks(s, '<'),
        lacks(s, '>'),
    ensures
        entity_encoded(s) == s,
{
    lemma_replace_char_absent(s, '<', lt_entity());
    lemma_replace_char_absent(s, '>', rt_entity());
}

/// Encoding an encoded text again changes nothing: no raw `<` or `>` is left
/// to replace, and the entities themselves are not rewritten.
pub proof fn lemma_entity_encoding_stable(s: Seq<char>)
    ensures
        entity_encoded(entity_encoded(s)) == entity_encoded(s),
{
    lemma_entity_encoded_lacks_brackets(s);
    lemma_entity_encoded_plain_text(entity_encoded(s));
}

/// Encoding never makes a text shorter.
pub proof fn lemma_entity_encoded_len(s: Seq<char>)
    ensures
        entity_encoded(s).len() >= s.len(),
{
    lemma_replace_char_len(s, '<', lt_entity());
    lemma_replace_char_len(replace_char(s, '<', lt_entity()), '>', rt_entity());
}

/// `text` with each occurrence of `from` replaced by `to`.
pub fn replace_all(text: &str, from: char, to: &str) -> (r: String)
    ensures
        r@ == replace_char(text@, from, to@),
{
    let mut out = String::new();
    for c in it: text.chars()
        invariant
            it.seq() == text@,
            out@ == replace_char(text@.take(it.index() as int), from, to@),
    {
        proof {
            let k = it.index() as int;
            assert(text@.take(k + 1).drop_last() =~= text@.take(k));
        }
        if c == from {
            out.append(to);
        } else {
            out.push(c);
            proof {
                let k = it.index() as int;
                assert(out@ =~= replace_char(text@.take(k), from, to@) + seq![c]);
            }
        }
    }
    proof {
        assert(text@.take(text@.len() as int) =~= text@);
    }
    out
}

} // verus!

//! Sanitization functions that may allocate more memory, and may make the
//! text longer.
use vstd::prelude::*;

use crate::entities::{entity_encoded, lemma_entity_encoded_len, lt_entity, replace_all, rt_entity};
use crate::input::TextSource;
use crate::tags::{
    lemma_scan_prefix_shape, lemma_strip_tags_len, lemma_strip_tags_single_pass, scan_prefix,
    strip_tags, ScanMode,
};

verus! {

/// Replaces every `<` with `&lt;` and then every `>` with `&rt;`, so that a
/// browser shows the brackets as text and never runs them as markup. Nothing
/// else changes.
pub fn sanitize_string<T: TextSource>(input: T) -> (r: String)
    ensures
        r@ == entity_encoded(input@),
        r@.len() >= input@.len(),
{
    let text = input.into_text();
    let lt = "&lt;";
    let rt = "&rt;";
    proof {
        reveal_strlit("&lt;");
        reveal_strlit("&rt;");
        assert(lt@ =~= lt_entity());
        assert(rt@ =~= rt_entity());
        lemma_entity_encoded_len(text@);
    }
    let once = replace_all(text.as_str(), '<', lt);
    replace_all(once.as_str(), '>', rt)
}

/// Entity encoding of a text buffer in place.
pub trait AllocatingSanitizer: View<V = Seq<char>> + Sized {
    /// Replaces every `<` with `&lt;` and then every `>` with `&rt;`, so that
    /// a browser shows the brackets as text and never runs them as markup.
    fn sanitize(&mut self)
        ensures
            final(self)@ == entity_encoded(old(self)@),
    ;
}

impl AllocatingSanitizer for String {
    fn sanitize(&mut self) {
        let encoded = sanitize_string(self.as_str());
        *self = encoded;
    }
}

/// The scanner's state while it runs: character positions in its output.
#[derive(Clone, Copy)]
enum ScanState {
    Scanning,
    InsideTag(usize),
    JustClosed(usize),
}

impl View for ScanState {
    type V = ScanMode;

    closed spec fn view(&self) -> ScanMode {
        match *self {
            ScanState::Scanning => ScanMode::Scanning,
            ScanState::InsideTag(p) => ScanMode::InsideTag(p as int),
            ScanState::JustClosed(q) => ScanMode::JustClosed(q as int),
        }
    }
}

/// Removes all html tags from the text. A tag span starts at the first `<`
/// that no span holds yet and ends at the next `>`; everything from one to
/// the other is deleted. A `>` that follows a deleted span, with no `<` in
/// between, extends that deletion to itself. A span that is never closed
/// stays. Runs in one pass, O(n).
pub fn remove_html_tags<T: TextSource>(input: T) -> (r: String)
    ensures
        r@ == strip_tags(input@),
        r@.len() <= input@.len(),
{
    let ghost src = input@;
    let text = input.into_text();
    let mut out: Vec<char> = Vec::new();
    let mut state = ScanState::Scanning;
    for c in it: text.chars()
        invariant
            it.seq() == src,
            (out@, state@) == scan_prefix(src.take(it.index() as int)),
    {
        proof {
            let k = it.index() as int;
            lemma_scan_prefix_shape(src.take(k));
            assert(src.take(k + 1).drop_last() =~= src.take(k));
        }
        if c == '<' {
            if let ScanState::InsideTag(_) = state {
            } else {
                state = ScanState::InsideTag(out.len());
            }
            out.push(c);
        } else if c == '>' {
            match state {
                ScanState::Scanning => {
                    out.push(c);
                },
                ScanState::InsideTag(p) => {
                    out.truncate(p);
                    state = ScanState::JustClosed(p);
                },
                ScanState::JustClosed(q) => {
                    out.truncate(q);
                },
            }
        } else {
            out.push(c);
        }
    }
    proof {
        assert(src.take(src.len() as int) =~= src);
        lemma_strip_tags_single_pass(src);
        lemma_strip_tags_len(src);
    }
    let mut r = String::new();
    for i in 0..out.len()
        invariant
            r@ == out@.take(i as int),
    {
        r.push(out[i]);
        proof {
            assert(out@.take(i + 1) =~= out@.take(i as int).push(out@[i as int]));
        }
    }
    proof {
        assert(out@.take(out.len() as int) =~= out@);
    }
    r
}

} // verus!

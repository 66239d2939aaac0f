use vstd::prelude::*;

verus! {

/// Where the tag-stripping scanner stands. Positions are character indices.
pub enum ScanMode {
    /// No span is open, and none has been deleted yet.
    Scanning,
    /// The span opened by the `<` at this position waits for its `>`.
    InsideTag(int),
    /// A span was deleted and the text now resumes at this position; a later
    /// `>` with no `<` before it extends that deletion.
    JustClosed(int),
}

/// `buf` without the characters at positions `from` through `to`.
pub open spec fn delete_span(buf: Seq<char>, from: int, to: int) -> Seq<char> {
    buf.take(from) + buf.skip(to + 1)
}

/// The scanner working on the buffer in place. It examines position `i` in
/// mode `m`:
/// - a `<` opens a span at `i` unless one is open already;
/// - a `>` deletes the open span through `i`, or, when a span was deleted
///   before and none is open, deletes from where that one was through `i`;
///   scanning then resumes at the start of the deletion;
/// - any other character, or a `>` before any span, stays.
///
/// A span that is still open at the end stays as it is.
pub open spec fn scan_in_place(buf: Seq<char>, i: int, m: ScanMode) -> Seq<char>
    decreases 2 * buf.len() - i,
{
    if i < 0 || i >= buf.len() {
        buf
    } else if buf[i] == '<' {
        match m {
            ScanMode::InsideTag(_) => scan_in_place(buf, i + 1, m),
            _ => scan_in_place(buf, i + 1, ScanMode::InsideTag(i)),
        }
    } else if buf[i] == '>' {
        match m {
            ScanMode::Scanning => scan_in_place(buf, i + 1, m),
            ScanMode::InsideTag(p) => if 0 <= p <= i {
                scan_in_place(delete_span(buf, p, i), p, ScanMode::JustClosed(p))
            } else {
                buf
            },
            ScanMode::JustClosed(q) => if 0 <= q <= i {
                scan_in_place(delete_span(buf, q, i), q, ScanMode::JustClosed(q))
            } else {
                buf
            },
        }
    } else {
        scan_in_place(buf, i + 1, m)
    }
}

/// The text `s` with its tag spans removed.
pub open spec fn strip_tags(s: Seq<char>) -> Seq<char> {
    scan_in_place(s, 0, ScanMode::Scanning)
}

/// One character of the single pass, which writes the characters it keeps to
/// `out`: deleting a span is cutting `out` back to where the span started.
pub open spec fn scan_step(out: Seq<char>, m: ScanMode, c: char) -> (Seq<char>, ScanMode) {
    if c == '<' {
        match m {
            ScanMode::InsideTag(_) => (out.push(c), m),
            _ => (out.push(c), ScanMode::InsideTag(out.len() as int)),
        }
    } else if c == '>' {
        match m {
            ScanMode::Scanning => (out.push(c), m),
            ScanMode::InsideTag(p) => (out.take(p), ScanMode::JustClosed(p)),
            ScanMode::JustClosed(q) => (out.take(q), ScanMode::JustClosed(q)),
        }
    } else {
        (out.push(c), m)
    }
}

/// The output and the mode of the single pass after it has read all of `s`.
pub open spec fn scan_prefix(s: Seq<char>) -> (Seq<char>, ScanMode)
    decreases s.len(),
{
    if s.len() == 0 {
        (Seq::empty(), ScanMode::Scanning)
    } else {
        let prev = scan_prefix(s.drop_last());
        scan_step(prev.0, prev.1, s.last())
    }
}

/// Whether `s` holds no `<`.
pub open spec fn no_open_bracket(s: Seq<char>) -> bool {
    forall|i: int| 0 <= i < s.len() ==> s[i] != '<'
}

/// How the single pass's output and mode fit together: outside a span the
/// output holds no `<`; inside one, the output's only `<` are from the span's
/// start on, and it holds no `>` from there on.
pub open spec fn well_placed(out: Seq<char>, m: ScanMode) -> bool {
    match m {
        ScanMode::Scanning => no_open_bracket(out),
        ScanMode::InsideTag(p) => {
            &&& 0 <= p < out.len()
            &&& out[p] == '<'
            &&& forall|i: int| 0 <= i < p ==> out[i] != '<'
            &&& forall|i: int| p <= i < out.len() ==> out[i] != '>'
        },
        ScanMode::JustClosed(q) => 0 <= q <= out.len() && no_open_bracket(out),
    }
}

/// The single pass keeps its output well placed and never longer than what it
/// has read.
pub proof fn lemma_scan_prefix_shape(s: Seq<char>)
    ensures
        well_placed(scan_prefix(s).0, scan_prefix(s).1),
        scan_prefix(s).0.len() <= s.len(),
    decreases s.len(),
{
    if s.len() > 0 {
        lemma_scan_prefix_shape(s.drop_last());
        let prev = scan_prefix(s.drop_last());
        let out = prev.0;
        let c = s.last();
        let next = scan_step(out, prev.1, c);
        match prev.1 {
            ScanMode::InsideTag(p) => {
                if c == '>' {
                    assert(no_open_bracket(next.0));
                } else {
                    assert forall|i: int| p <= i < next.0.len() implies next.0[i] != '>' by {
                        if i < out.len() {
                            assert(next.0[i] == out[i]);
                        }
                    }
                }
            },
            _ => {
                if c == '>' && prev.1 is JustClosed {
                    assert(no_open_bracket(next.0));
                }
            },
        }
    }
}

/// The in-place scanner, resumed at the end of what the single pass has
/// written, gives what it gives on the whole text: after `k` characters the
/// buffer is the pass's output followed by the unread rest.
proof fn lemma_in_place_after_prefix(s: Seq<char>, k: int)
    requires
        0 <= k <= s.len(),
    ensures
        scan_in_place(
            scan_prefix(s.take(k)).0 + s.skip(k),
            scan_prefix(s.take(k)).0.len() as int,
            scan_prefix(s.take(k)).1,
        ) == strip_tags(s),
    decreases k,
{
    if k == 0 {
        assert(s.take(0) =~= Seq::<char>::empty());
        assert(Seq::<char>::empty() + s.skip(0) =~= s);
    } else {
        lemma_in_place_after_prefix(s, k - 1);
        let prev = scan_prefix(s.take(k - 1));
        let out = prev.0;
        let m = prev.1;
        let c = s[k - 1];
        let i = out.len() as int;
        let buf = out + s.skip(k - 1);
        assert(s.take(k).drop_last() =~= s.take(k - 1));
        assert(s.take(k).last() == c);
        lemma_scan_prefix_shape(s.take(k - 1));
        let next = scan_step(out, m, c);
        assert(scan_prefix(s.take(k)) == next);
        assert(buf[i] == c);
        if c == '>' && (m is InsideTag || m is JustClosed) {
            let p = match m {
                ScanMode::InsideTag(p) => p,
                ScanMode::JustClosed(q) => q,
                ScanMode::Scanning => 0,
            };
            assert(delete_span(buf, p, i) =~= next.0 + s.skip(k));
        } else {
            assert(buf =~= next.0 + s.skip(k));
        }
    }
}

/// The in-place scanner and the single pass give the same text.
pub proof fn lemma_strip_tags_single_pass(s: Seq<char>)
    ensures
        strip_tags(s) == scan_prefix(s).0,
{
    lemma_in_place_after_prefix(s, s.len() as int);
    assert(s.take(s.len() as int) =~= s);
    assert(scan_prefix(s).0 + s.skip(s.len() as int) =~= scan_prefix(s).0);
}

/// Whether no `<` of `s` comes before a `>`: such a text holds no span that
/// the scanner could close.
pub open spec fn no_closed_span(s: Seq<char>) -> bool {
    forall|i: int, j: int| 0 <= i < j < s.len() && s[i] == '<' ==> s[j] != '>'
}

/// The single pass keeps a text that holds no closed span as it is; it ends
/// outside a span, or inside the one opened by the text's first `<`.
proof fn lemma_single_pass_keeps_open_text(t: Seq<char>)
    requires
        no_closed_span(t),
    ensures
        scan_prefix(t).0 == t,
        match scan_prefix(t).1 {
            ScanMode::Scanning => no_open_bracket(t),
            ScanMode::InsideTag(p) => 0 <= p < t.len() && t[p] == '<',
            ScanMode::JustClosed(_) => false,
        },
    decreases t.len(),
{
    if t.len() > 0 {
        let u = t.drop_last();
        assert forall|i: int, j: int| 0 <= i < j < u.len() && u[i] == '<' implies u[j] != '>' by {
            assert(t[i] == u[i] && t[j] == u[j]);
        }
        lemma_single_pass_keeps_open_text(u);
        assert(u.push(t.last()) =~= t);
        if let ScanMode::InsideTag(p) = scan_prefix(u).1 {
            assert(t[p] == '<');
            assert(t[t.len() - 1] != '>');
        }
    }
}

/// Stripping tags is idempotent: stripping the output of a strip again
/// changes nothing.
pub proof fn lemma_strip_tags_idempotent(s: Seq<char>)
    ensures
        strip_tags(strip_tags(s)) == strip_tags(s),
{
    lemma_strip_tags_single_pass(s);
    lemma_scan_prefix_shape(s);
    let t = strip_tags(s);
    if let ScanMode::InsideTag(p) = scan_prefix(s).1 {
        assert forall|i: int, j: int| 0 <= i < j < t.len() && t[i] == '<' implies t[j] != '>' by {
            assert(i >= p);
        }
    }
    lemma_single_pass_keeps_open_text(t);
    lemma_strip_tags_single_pass(t);
}

/// Stripping tags never makes a text longer.
pub proof fn lemma_strip_tags_len(s: Seq<char>)
    ensures
        strip_tags(s).len() <= s.len(),
{
    lemma_strip_tags_single_pass(s);
    lemma_scan_prefix_shape(s);
}

} // verus!

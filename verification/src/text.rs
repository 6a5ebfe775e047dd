//! Building and taking apart text.

use vstd::prelude::*;

verus! {

/// `String::push_str`: appends the characters of `t` to `s`.
#[verifier::external_body]
pub(crate) fn push_str(s: &mut String, t: &str)
    ensures
        final(s)@ == old(s)@ + t@,
{
    s.push_str(t)
}

/// `String::push`: appends the character `c` to `s`.
#[verifier::external_body]
pub(crate) fn push_char(s: &mut String, c: char)
    ensures
        final(s)@ == old(s)@.push(c),
{
    s.push(c)
}

/// The texts of `parts` with `sep` between each two.
pub open spec fn joined(parts: Seq<Seq<char>>, sep: Seq<char>) -> Seq<char>
    decreases parts.len(),
{
    if parts.len() == 0 {
        Seq::empty()
    } else if parts.len() == 1 {
        parts[0]
    } else {
        joined(parts.drop_last(), sep) + sep + parts.last()
    }
}

/// The pieces of `s` between its occurrences of `sep`. There is always at
/// least one piece; two separators in a row have an empty piece between them.
pub open spec fn split(s: Seq<char>, sep: char) -> Seq<Seq<char>>
    decreases s.len(),
{
    if s.len() == 0 {
        seq![Seq::empty()]
    } else {
        let before = split(s.drop_last(), sep);
        if s.last() == sep {
            before.push(Seq::empty())
        } else {
            before.update(before.len() - 1, before.last().push(s.last()))
        }
    }
}

/// Splitting never gives no piece, and no piece holds the separator.
pub proof fn lemma_split_pieces(s: Seq<char>, sep: char)
    ensures
        split(s, sep).len() >= 1,
        forall|i: int, k: int|
            0 <= i < split(s, sep).len() && 0 <= k < split(s, sep)[i].len() ==> #[trigger] split(
                s,
                sep,
            )[i][k] != sep,
    decreases s.len(),
{
    if s.len() > 0 {
        lemma_split_pieces(s.drop_last(), sep);
    }
}

/// Joining the pieces of a text with the separator gives the text back.
pub proof fn lemma_join_split(s: Seq<char>, sep: char)
    ensures
        joined(split(s, sep), seq![sep]) == s,
    decreases s.len(),
{
    if s.len() == 0 {
        assert(joined(seq![Seq::<char>::empty()], seq![sep]) =~= s);
    } else {
        let init = s.drop_last();
        let before = split(init, sep);
        lemma_split_pieces(init, sep);
        lemma_join_split(init, sep);
        if s.last() == sep {
            let after = before.push(Seq::empty());
            assert(after.drop_last() =~= before);
            assert(joined(after, seq![sep]) =~= joined(before, seq![sep]) + seq![sep]);
            assert(init + seq![sep] =~= s);
        } else {
            let grown = before.last().push(s.last());
            let after = before.update(before.len() - 1, grown);
            if before.len() == 1 {
                assert(joined(before, seq![sep]) == before[0]);
                assert(joined(after, seq![sep]) == after[0]);
                assert(init.push(s.last()) =~= s);
            } else {
                assert(after.drop_last() =~= before.drop_last());
                assert(joined(after, seq![sep]) == joined(before.drop_last(), seq![sep]) + seq![
                    sep,
                ] + grown);
                assert(joined(before, seq![sep]) == joined(before.drop_last(), seq![sep]) + seq![
                    sep,
                ] + before.last());
                assert(joined(after, seq![sep]) =~= joined(before, seq![sep]).push(s.last()));
                assert(init.push(s.last()) =~= s);
            }
        }
    }
}

/// The views of `lines`.
pub open spec fn views(lines: Seq<String>) -> Seq<Seq<char>> {
    Seq::new(lines.len(), |i: int| lines[i]@)
}

/// Splits `s` at every occurrence of `sep`.
pub fn split_text(s: &str, sep: char) -> (pieces: Vec<String>)
    ensures
        views(pieces@) == split(s@, sep),
{
    let mut pieces: Vec<String> = Vec::new();
    let mut current = String::new();
    let ghost mut done: Seq<char> = Seq::empty();
    assert(split(done, sep) =~= seq![Seq::<char>::empty()]);
    for c in iter: s.chars()
        invariant
            iter.seq() == s@,
            done == s@.take(iter.index() as int),
            views(pieces@).push(current@) == split(done, sep),
    {
        proof {
            let next = s@.take(iter.index() + 1);
            assert(next.drop_last() =~= done);
            assert(next.last() == c);
            done = next;
        }
        let ghost before = views(pieces@);
        if c == sep {
            pieces.push(current);
            current = String::new();
            assert(views(pieces@) =~= before.push(pieces@[pieces@.len() - 1]@));
            assert(views(pieces@).push(current@) =~= split(done, sep));
        } else {
            let ghost piece = current@;
            push_char(&mut current, c);
            assert(before.push(current@) =~= before.push(piece).update(
                before.len() as int,
                piece.push(c),
            ));
        }
    }
    assert(done =~= s@);
    let ghost before = views(pieces@);
    pieces.push(current);
    assert(views(pieces@) =~= before.push(pieces@[pieces@.len() - 1]@));
    pieces
}

} // verus!

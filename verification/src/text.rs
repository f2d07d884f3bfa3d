//! Text as sequences of characters: splitting at a separator, joining with
//! one, and membership in a list of strings.

use vstd::prelude::*;

verus! {

/// The views of a list of strings, in order.
pub open spec fn views(list: Seq<String>) -> Seq<Seq<char>> {
    Seq::new(list.len(), |i: int| list[i]@)
}

/// The pieces of `s` that lie between the occurrences of `sep`. There is one
/// more piece than there are separators, so the empty text has one empty
/// piece.
pub open spec fn split_on(s: Seq<char>, sep: char) -> Seq<Seq<char>>
    decreases s.len(),
{
    if s.len() == 0 {
        seq![Seq::empty()]
    } else {
        let before = split_on(s.drop_last(), sep);
        if s.last() == sep {
            before.push(Seq::empty())
        } else {
            before.drop_last().push(before.last().push(s.last()))
        }
    }
}

/// The pieces written one after the other, with `sep` between neighbours.
pub open spec fn joined(pieces: Seq<Seq<char>>, sep: char) -> Seq<char>
    decreases pieces.len(),
{
    if pieces.len() == 0 {
        Seq::empty()
    } else if pieces.len() == 1 {
        pieces[0]
    } else {
        joined(pieces.drop_last(), sep).push(sep) + pieces.last()
    }
}

/// Whether `list` holds a string with the text of `s`.
pub fn contains(list: &[String], s: &String) -> (found: bool)
    ensures
        found == views(list@).contains(s@),
{
    let mut i: usize = 0;
    while i < list.len()
        invariant
            i <= list.len(),
            forall|j: int| 0 <= j < i ==> list@[j]@ != s@,
        decreases list.len() - i,
    {
        if list[i] == *s {
            assert(views(list@)[i as int] == s@);
            return true;
        }
        i += 1;
    }
    false
}

/// Splits `s` at every `sep`.
pub fn split(s: &str, sep: char) -> (pieces: Vec<String>)
    ensures
        views(pieces@) == split_on(s@, sep),
{
    broadcast use vstd::string::group_string_axioms;

    let n = s.unicode_len();
    let mut pieces: Vec<String> = Vec::new();
    let mut start: usize = 0;
    let mut i: usize = 0;
    assert(s@.take(0) =~= Seq::<char>::empty());
    assert(views(pieces@).push(s@.subrange(0, 0)) =~= seq![Seq::<char>::empty()]);
    for c in it: s.chars()
        invariant
            it.seq() == s@,
            n == s@.len(),
            i == it.index(),
            start <= i <= n,
            views(pieces@).push(s@.subrange(start as int, i as int)) == split_on(
                s@.take(i as int),
                sep,
            ),
    {
        let ghost done = s@.take(i as int);
        let ghost more = s@.take(i + 1);
        assert(more.drop_last() =~= done);
        assert(more.last() == c);
        if c == sep {
            pieces.push(s.substring_char(start, i).to_owned());
            start = i + 1;
            assert(views(pieces@) =~= split_on(done, sep));
            assert(s@.subrange(start as int, start as int) =~= Seq::<char>::empty());
        } else {
            assert(split_on(done, sep).drop_last() =~= views(pieces@));
            assert(s@.subrange(start as int, i + 1) =~= s@.subrange(
                start as int,
                i as int,
            ).push(c));
        }
        i += 1;
    }
    assert(s@.take(n as int) =~= s@);
    pieces.push(s.substring_char(start, i).to_owned());
    assert(views(pieces@) =~= split_on(s@, sep));
    pieces
}

/// Splitting loses nothing and leaves no separator behind: there is at
/// least one piece, no piece holds `sep`, and the pieces joined with `sep`
/// are `s` again.
pub proof fn lemma_split_then_join(s: Seq<char>, sep: char)
    ensures
        split_on(s, sep).len() >= 1,
        forall|i: int|
            0 <= i < split_on(s, sep).len() ==> !(#[trigger] split_on(s, sep)[i]).contains(sep),
        joined(split_on(s, sep), sep) == s,
    decreases s.len(),
{
    let pieces = split_on(s, sep);
    if s.len() == 0 {
        assert(joined(pieces, sep) =~= s);
    } else {
        let before = split_on(s.drop_last(), sep);
        lemma_split_then_join(s.drop_last(), sep);
        if s.last() == sep {
            assert(pieces.drop_last() =~= before);
            assert(joined(pieces, sep) =~= s);
        } else {
            let grown = before.last().push(s.last());
            assert forall|i: int| 0 <= i < pieces.len() implies !(#[trigger] pieces[i]).contains(
                sep,
            ) by {
                if i == pieces.len() - 1 {
                    if grown.contains(sep) {
                        let k = choose|k: int| 0 <= k < grown.len() && grown[k] == sep;
                        assert(before.last()[k] == sep);
                    }
                } else {
                    assert(pieces[i] == before[i]);
                }
            }
            if before.len() == 1 {
                assert(joined(pieces, sep) =~= s);
            } else {
                assert(pieces.drop_last() =~= before.drop_last());
                assert(joined(pieces, sep) =~= joined(before, sep).push(s.last()));
                assert(joined(pieces, sep) =~= s);
            }
        }
    }
}

/// Splitting finds the pieces that were joined: where no piece holds `sep`,
/// the joined text splits into the same pieces.
pub proof fn lemma_join_then_split(pieces: Seq<Seq<char>>, sep: char)
    requires
        pieces.len() >= 1,
        forall|i: int| 0 <= i < pieces.len() ==> !(#[trigger] pieces[i]).contains(sep),
    ensures
        split_on(joined(pieces, sep), sep) == pieces,
    decreases joined(pieces, sep).len(),
{
    let s = joined(pieces, sep);
    let last = pieces.last();
    if pieces.len() == 1 && last.len() == 0 {
        assert(pieces[0] =~= Seq::<char>::empty());
        assert(pieces =~= seq![Seq::<char>::empty()]);
    } else if last.len() == 0 {
        let rest = pieces.drop_last();
        assert(last =~= Seq::<char>::empty());
        assert(s =~= joined(rest, sep).push(sep));
        assert(s.last() == sep);
        assert(s.drop_last() =~= joined(rest, sep));
        assert(pieces =~= rest.push(Seq::<char>::empty()));
        assert forall|i: int| 0 <= i < rest.len() implies !(#[trigger] rest[i]).contains(sep) by {
            assert(rest[i] == pieces[i]);
        }
        lemma_join_then_split(rest, sep);
        assert(split_on(s, sep) =~= pieces);
    } else {
        let shorter = pieces.drop_last().push(last.drop_last());
        assert(last[last.len() - 1] == last.last());
        assert(last.last() != sep);
        assert(shorter.drop_last() =~= pieces.drop_last());
        if pieces.len() == 1 {
            assert(joined(shorter, sep) =~= s.drop_last());
        } else {
            assert(s =~= joined(pieces.drop_last(), sep).push(sep) + last);
            assert(joined(shorter, sep) =~= s.drop_last());
        }
        assert(s.last() == last.last());
        assert forall|i: int| 0 <= i < shorter.len() implies !(#[trigger] shorter[i]).contains(
            sep,
        ) by {
            if i == shorter.len() - 1 {
                if shorter[i].contains(sep) {
                    let k = choose|k: int| 0 <= k < shorter[i].len() && shorter[i][k] == sep;
                    assert(last[k] == sep);
                }
            } else {
                assert(shorter[i] == pieces[i]);
            }
        }
        lemma_join_then_split(shorter, sep);
        assert(shorter.last().push(s.last()) =~= last);
        assert(split_on(s, sep) =~= pieces);
    }
}

} // verus!

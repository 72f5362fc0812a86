//! Character-level helpers shared by the parsers: reading the characters of a
//! string, comparing texts, splitting on a separator and trimming white space.
//!
//! Every contract is stated over `Seq<char>`, the view of a string.

use vstd::prelude::*;

verus! {

/// White space as `str::trim` understands it: the code points with the
/// Unicode property `White_Space`.
pub open spec fn is_space(c: char) -> bool {
    ||| '\u{9}' <= c <= '\u{d}'
    ||| c == ' '
    ||| c == '\u{85}'
    ||| c == '\u{a0}'
    ||| c == '\u{1680}'
    ||| '\u{2000}' <= c <= '\u{200a}'
    ||| c == '\u{2028}'
    ||| c == '\u{2029}'
    ||| c == '\u{202f}'
    ||| c == '\u{205f}'
    ||| c == '\u{3000}'
}

/// `s` without its leading white space.
pub open spec fn trim_start(s: Seq<char>) -> Seq<char>
    decreases s.len(),
{
    if s.len() > 0 && is_space(s[0]) {
        trim_start(s.drop_first())
    } else {
        s
    }
}

/// `s` without its trailing white space.
pub open spec fn trim_end(s: Seq<char>) -> Seq<char>
    decreases s.len(),
{
    if s.len() > 0 && is_space(s.last()) {
        trim_end(s.drop_last())
    } else {
        s
    }
}

/// `s` without leading and trailing white space.
pub open spec fn trim(s: Seq<char>) -> Seq<char> {
    trim_end(trim_start(s))
}

/// The pieces of `s` between occurrences of `sep`. There is always at least
/// one piece; an empty text has one empty piece, and a trailing separator is
/// followed by an empty piece.
pub open spec fn split_on(s: Seq<char>, sep: char) -> Seq<Seq<char>>
    decreases s.len(),
{
    if s.len() == 0 {
        seq![Seq::<char>::empty()]
    } else {
        let before = split_on(s.drop_last(), sep);
        if s.last() == sep {
            before.push(Seq::<char>::empty())
        } else {
            before.update(before.len() - 1, before.last().push(s.last()))
        }
    }
}

/// The pieces with `sep` put back between them.
pub open spec fn join_with(pieces: Seq<Seq<char>>, sep: char) -> Seq<char>
    decreases pieces.len(),
{
    if pieces.len() == 0 {
        Seq::<char>::empty()
    } else if pieces.len() == 1 {
        pieces[0]
    } else {
        join_with(pieces.drop_last(), sep).push(sep) + pieces.last()
    }
}

/// Splitting always yields at least one piece.
pub proof fn lemma_split_nonempty(s: Seq<char>, sep: char)
    ensures
        split_on(s, sep).len() >= 1,
    decreases s.len(),
{
    if s.len() > 0 {
        lemma_split_nonempty(s.drop_last(), sep);
    }
}

/// No piece holds the separator, and joining the pieces gives the text back:
/// the two facts that determine the pieces.
pub proof fn lemma_split_is_exact(s: Seq<char>, sep: char)
    ensures
        forall|i: int| 0 <= i < split_on(s, sep).len() ==> !(#[trigger] split_on(s, sep)[i]).contains(sep),
        join_with(split_on(s, sep), sep) == s,
    decreases s.len(),
{
    lemma_split_nonempty(s, sep);
    if s.len() == 0 {
    } else {
        let head = s.drop_last();
        let before = split_on(head, sep);
        lemma_split_nonempty(head, sep);
        lemma_split_is_exact(head, sep);
        let all = split_on(s, sep);
        if s.last() == sep {
            assert(all.drop_last() == before);
            assert(join_with(all, sep) == s);
        } else {
            let grown = before.last().push(s.last());
            assert(all.last() == grown);
            assert forall|i: int| 0 <= i < all.len() implies !(#[trigger] all[i]).contains(sep) by {
                if i == all.len() - 1 {
                    assert(!before[i].contains(sep));
                    if grown.contains(sep) {
                        let k = choose|k: int| 0 <= k < grown.len() && grown[k] == sep;
                        assert(before[i][k] == sep);
                    }
                } else {
                    assert(all[i] == before[i]);
                }
            }
            assert(head.push(s.last()) == s);
            if before.len() == 1 {
                assert(before[0] == head);
                assert(all[0] == grown);
            } else {
                let joined = join_with(before.drop_last(), sep).push(sep);
                assert(all.drop_last() == before.drop_last());
                assert(joined + grown == (joined + before.last()).push(s.last()));
            }
        }
    }
}

/// A text without the separator is its own single piece.
pub proof fn lemma_split_without_separator(s: Seq<char>, sep: char)
    requires
        !s.contains(sep),
    ensures
        split_on(s, sep) == seq![s],
    decreases s.len(),
{
    if s.len() > 0 {
        let head = s.drop_last();
        assert forall|i: int| 0 <= i < head.len() implies head[i] != sep by {
            assert(s[i] == head[i]);
            assert(s.contains(s[i]));
        }
        assert(!head.contains(sep));
        lemma_split_without_separator(head, sep);
        assert(s.contains(s.last()));
        assert(head.push(s.last()) == s);
        assert(split_on(s, sep) =~= seq![s]);
    } else {
        assert(s =~= Seq::<char>::empty());
        assert(split_on(s, sep) =~= seq![s]);
    }
}

/// Appending a separator and a piece free of it adds exactly that piece.
pub proof fn lemma_split_append_piece(s: Seq<char>, piece: Seq<char>, sep: char)
    requires
        !piece.contains(sep),
    ensures
        split_on(s.push(sep) + piece, sep) == split_on(s, sep).push(piece),
    decreases piece.len(),
{
    let whole = s.push(sep) + piece;
    if piece.len() == 0 {
        assert(whole == s.push(sep));
        assert(whole.drop_last() == s);
        assert(piece =~= Seq::<char>::empty());
    } else {
        let shorter = piece.drop_last();
        assert forall|i: int| 0 <= i < shorter.len() implies shorter[i] != sep by {
            assert(piece[i] == shorter[i]);
            assert(piece.contains(piece[i]));
        }
        assert(!shorter.contains(sep));
        lemma_split_append_piece(s, shorter, sep);
        assert(whole.drop_last() == s.push(sep) + shorter);
        assert(piece.contains(piece.last()));
        assert(whole.last() == piece.last());
        let before = split_on(s, sep).push(shorter);
        assert(before.update(before.len() - 1, before.last().push(piece.last())) == split_on(
            s,
            sep,
        ).push(piece)) by {
            assert(shorter.push(piece.last()) == piece);
        }
    }
}

/// Appending a text free of the separator lengthens the last piece by it.
pub proof fn lemma_split_extend_last(s: Seq<char>, more: Seq<char>, sep: char)
    requires
        !more.contains(sep),
    ensures
        split_on(s, sep).len() >= 1,
        split_on(s + more, sep) == split_on(s, sep).update(
            split_on(s, sep).len() - 1,
            split_on(s, sep).last() + more,
        ),
    decreases more.len(),
{
    lemma_split_nonempty(s, sep);
    let pieces = split_on(s, sep);
    if more.len() == 0 {
        assert(s + more == s);
        assert(pieces.last() + more == pieces.last());
        assert(pieces.update(pieces.len() - 1, pieces.last()) == pieces);
    } else {
        let shorter = more.drop_last();
        assert forall|i: int| 0 <= i < shorter.len() implies shorter[i] != sep by {
            assert(more[i] == shorter[i]);
            assert(more.contains(more[i]));
        }
        assert(!shorter.contains(sep));
        lemma_split_extend_last(s, shorter, sep);
        assert((s + more).drop_last() == s + shorter);
        assert(more.contains(more.last()));
        assert((s + more).last() == more.last());
        assert((pieces.last() + shorter).push(more.last()) == pieces.last() + more);
        let before = split_on(s + shorter, sep);
        assert(before.update(before.len() - 1, before.last().push(more.last())) == pieces.update(
            pieces.len() - 1,
            pieces.last() + more,
        ));
    }
}

/// What a vector of pieces holds, each piece by its characters.
pub open spec fn pieces_of(pieces: Seq<Vec<char>>) -> Seq<Seq<char>> {
    Seq::new(pieces.len(), |i: int| pieces[i]@)
}

/// The characters of `s`, in order.
pub fn chars_of(s: &str) -> (chars: Vec<char>)
    ensures
        chars@ == s@,
{
    let mut chars: Vec<char> = Vec::new();
    let rest = s.chars();
    for c in it: rest
        invariant
            chars@ == s@.take(it.index()),
            it.seq() == s@,
    {
        chars.push(c);
    }
    chars
}

/// Whether two texts hold the same characters.
pub fn same_text(a: &str, b: &str) -> (same: bool)
    ensures
        same == (a@ == b@),
{
    let left = chars_of(a);
    let right = chars_of(b);
    if left.len() != right.len() {
        return false;
    }
    let mut i: usize = 0;
    while i < left.len()
        invariant
            left@ == a@,
            right@ == b@,
            left.len() == right.len(),
            i <= left.len(),
            a@.take(i as int) == b@.take(i as int),
        decreases left.len() - i,
    {
        if left[i] != right[i] {
            return false;
        }
        assert(a@.take(i + 1) == a@.take(i as int).push(a@[i as int]));
        assert(b@.take(i + 1) == b@.take(i as int).push(b@[i as int]));
        i += 1;
    }
    assert(a@.take(i as int) == a@);
    assert(b@.take(i as int) == b@);
    true
}

/// Whether `c` occurs in `s`.
pub fn contains_char(s: &str, c: char) -> (found: bool)
    ensures
        found == s@.contains(c),
{
    let chars = chars_of(s);
    let mut i: usize = 0;
    while i < chars.len()
        invariant
            chars@ == s@,
            i <= chars.len(),
            forall|k: int| 0 <= k < i ==> s@[k] != c,
        decreases chars.len() - i,
    {
        if chars[i] == c {
            return true;
        }
        i += 1;
    }
    false
}

/// Decides `is_space`.
pub fn is_space_char(c: char) -> (space: bool)
    ensures
        space == is_space(c),
{
    ('\u{9}' <= c && c <= '\u{d}') || c == ' ' || c == '\u{85}' || c == '\u{a0}' || c
        == '\u{1680}' || ('\u{2000}' <= c && c <= '\u{200a}') || c == '\u{2028}' || c
        == '\u{2029}' || c == '\u{202f}' || c == '\u{205f}' || c == '\u{3000}'
}

/// Splits `chars` on `sep`.
pub fn split_chars(chars: &Vec<char>, sep: char) -> (pieces: Vec<Vec<char>>)
    ensures
        pieces_of(pieces@) == split_on(chars@, sep),
{
    let mut done: Vec<Vec<char>> = Vec::new();
    let mut current: Vec<char> = Vec::new();
    let mut i: usize = 0;
    assert(chars@.take(0) == Seq::<char>::empty());
    assert(pieces_of(done@).push(current@) == seq![Seq::<char>::empty()]);
    while i < chars.len()
        invariant
            i <= chars.len(),
            pieces_of(done@).push(current@) == split_on(chars@.take(i as int), sep),
        decreases chars.len() - i,
    {
        let c = chars[i];
        let ghost prefix = chars@.take(i as int);
        let ghost next = chars@.take(i + 1);
        let ghost before = pieces_of(done@).push(current@);
        assert(next.drop_last() == prefix);
        assert(next.last() == c);
        if c == sep {
            done.push(current);
            current = Vec::new();
            assert(pieces_of(done@) == before);
        } else {
            current.push(c);
            assert(pieces_of(done@).push(current@) == before.update(
                before.len() - 1,
                before.last().push(c),
            ));
        }
        i += 1;
    }
    assert(chars@.take(i as int) == chars@);
    let ghost before = pieces_of(done@).push(current@);
    done.push(current);
    assert(pieces_of(done@) == before);
    done
}

/// The index of the first character of `chars` that is not white space, or
/// its length.
fn first_non_space(chars: &Vec<char>) -> (start: usize)
    ensures
        start <= chars.len(),
        trim_start(chars@) == chars@.skip(start as int),
{
    let mut start: usize = 0;
    assert(chars@.skip(0) == chars@);
    while start < chars.len() && is_space_char(chars[start])
        invariant
            start <= chars.len(),
            trim_start(chars@) == trim_start(chars@.skip(start as int)),
        decreases chars.len() - start,
    {
        assert(chars@.skip(start as int).drop_first() == chars@.skip(start + 1));
        start += 1;
    }
    start
}

/// `chars` without leading and trailing white space.
pub fn trim_chars(chars: &Vec<char>) -> (trimmed: Vec<char>)
    ensures
        trimmed@ == trim(chars@),
{
    let start = first_non_space(chars);
    let mut end: usize = chars.len();
    let ghost tail = chars@.skip(start as int);
    assert(chars@.subrange(start as int, end as int) == tail);
    while end > start && is_space_char(chars[end - 1])
        invariant
            start <= end <= chars.len(),
            tail == chars@.skip(start as int),
            trim_end(tail) == trim_end(chars@.subrange(start as int, end as int)),
        decreases end - start,
    {
        assert(chars@.subrange(start as int, end as int).drop_last() == chars@.subrange(
            start as int,
            end - 1,
        ));
        end -= 1;
    }
    let mut trimmed: Vec<char> = Vec::new();
    let mut i: usize = start;
    while i < end
        invariant
            start <= i <= end <= chars.len(),
            trimmed@ == chars@.subrange(start as int, i as int),
        decreases end - i,
    {
        trimmed.push(chars[i]);
        i += 1;
    }
    trimmed
}

} // verus!

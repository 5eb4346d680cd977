//! Searching, splitting and listing of text.

use vstd::prelude::*;

verus! {

/// The texts behind string slices.
pub open spec fn texts(slices: Seq<&str>) -> Seq<Seq<char>> {
    slices.map_values(|slice: &str| slice@)
}

/// `parts` one after the other, separated by a comma and a blank.
pub open spec fn listed(parts: Seq<Seq<char>>) -> Seq<char>
    decreases parts.len(),
{
    if parts.len() == 0 {
        Seq::empty()
    } else if parts.len() == 1 {
        parts[0]
    } else {
        listed(parts.drop_last()) + ", "@ + parts.last()
    }
}

/// What stands before the first `c` and what stands after it, if there is a `c`.
pub open spec fn split_at_first(text: Seq<char>, c: char) -> Option<(Seq<char>, Seq<char>)> {
    match text.index_of_first(c) {
        Some(at) => Some((text.take(at), text.skip(at + 1))),
        None => None,
    }
}

/// Whether `part` occurs in `text` as a contiguous piece.
pub open spec fn mentions(text: Seq<char>, part: Seq<char>) -> bool {
    exists|before: Seq<char>, after: Seq<char>| text == #[trigger] (before + part + after)
}

/// The position, counted in characters, of the first `c` in `s`.
pub fn find(s: &str, c: char) -> (found: Option<usize>)
    ensures
        match found {
            Some(at) => s@.index_of_first(c) == Some(at as int),
            None => s@.index_of_first(c) is None,
        },
{
    proof {
        s@.index_of_first_ensures(c);
    }
    let len: usize = s.unicode_len();
    let mut at: usize = 0;
    for x in it: s.chars()
        invariant
            len == s@.len(),
            at == it.index(),
            it.seq() == s@,
            forall|j: int| 0 <= j < at ==> s@[j] != c,
    {
        if x == c {
            proof {
                s@.index_of_first_ensures(c);
                assert(s@[at as int] == c);
            }
            return Some(at);
        }
        at = at + 1;
    }
    None
}

/// The position, counted in characters, of the last `c` in `s`.
pub fn find_last(s: &str, c: char) -> (found: Option<usize>)
    ensures
        match found {
            Some(at) => s@.index_of_last(c) == Some(at as int),
            None => s@.index_of_last(c) is None,
        },
{
    let len: usize = s.unicode_len();
    let mut at: usize = 0;
    let mut found: Option<usize> = None;
    for x in it: s.chars()
        invariant
            len == s@.len(),
            at == it.index(),
            it.seq() == s@,
            match found {
                Some(last) => last < at && s@[last as int] == c && forall|j: int|
                    last < j < at ==> s@[j] != c,
                None => forall|j: int| 0 <= j < at ==> s@[j] != c,
            },
    {
        if x == c {
            found = Some(at);
        }
        at = at + 1;
    }
    proof {
        s@.index_of_last_ensures(c);
    }
    found
}

/// Splits `s` around its first `c`.
pub fn split_once<'a>(s: &'a str, c: char) -> (split: Option<(&'a str, &'a str)>)
    ensures
        match split {
            Some((before, after)) => split_at_first(s@, c) == Some((before@, after@)),
            None => split_at_first(s@, c) is None,
        },
{
    match find(s, c) {
        Some(at) => {
            proof {
                s@.index_of_first_ensures(c);
            }
            let len: usize = s.unicode_len();
            let before = s.substring_char(0, at);
            let after = s.substring_char(at + 1, len);
            assert(after@ =~= s@.skip(at + 1));
            Some((before, after))
        },
        None => None,
    }
}

/// Writes `parts` one after the other, separated by a comma and a blank.
pub fn list(parts: &Vec<&str>) -> (out: String)
    ensures
        out@ == listed(texts(parts@)),
{
    let mut out = String::new();
    let mut done: usize = 0;
    while done < parts.len()
        invariant
            done <= parts.len(),
            out@ == listed(texts(parts@).take(done as int)),
        decreases parts.len() - done,
    {
        if done > 0 {
            out.append(", ");
        }
        out.append(parts[done]);
        done = done + 1;
        proof {
            let now = texts(parts@).take(done as int);
            assert(now.drop_last() =~= texts(parts@).take(done - 1));
            assert(now.last() == parts[done - 1]@);
            if done == 1 {
                assert(out@ =~= now[0]);
            }
        }
    }
    assert(texts(parts@).take(done as int) =~= texts(parts@));
    out
}

/// What is mentioned in a piece of a text is mentioned in the text.
pub proof fn lemma_mentions_within(before: Seq<char>, piece: Seq<char>, after: Seq<char>, part: Seq<char>)
    requires
        mentions(piece, part),
    ensures
        mentions(before + piece + after, part),
{
    let (b, a) = choose|b: Seq<char>, a: Seq<char>| piece == #[trigger] (b + part + a);
    assert(before + piece + after =~= (before + b) + part + (a + after));
}

/// A list mentions each of its parts.
pub proof fn lemma_list_mentions(parts: Seq<Seq<char>>, i: int)
    requires
        0 <= i < parts.len(),
    ensures
        mentions(listed(parts), parts[i]),
    decreases parts.len(),
{
    let none = Seq::<char>::empty();
    if parts.len() == 1 {
        assert(listed(parts) =~= none + parts[0] + none);
    } else {
        let front = listed(parts.drop_last());
        if i == parts.len() - 1 {
            assert(listed(parts) =~= (front + ", "@) + parts[i] + none);
        } else {
            lemma_list_mentions(parts.drop_last(), i);
            lemma_mentions_within(none, front, ", "@ + parts.last(), parts[i]);
            assert(listed(parts) =~= none + front + (", "@ + parts.last()));
        }
    }
}

/// Splitting around the first `c` undoes joining with a `c`, provided that the front part holds none;
/// a text without a `c` is not split.
pub proof fn law_split_undoes_join(before: Seq<char>, c: char, after: Seq<char>)
    requires
        !before.contains(c),
    ensures
        split_at_first(before + seq![c] + after, c) == Some((before, after)),
        split_at_first(before, c) is None,
{
    let joined = before + seq![c] + after;
    before.index_of_first_ensures(c);
    joined.index_of_first_ensures(c);
    assert(joined[before.len() as int] == c);
    assert(joined.contains(c));
    let at = joined.index_of_first(c)->0;
    if at < before.len() {
        assert(before[at] == c);
    }
    assert(joined.take(at) =~= before);
    assert(joined.skip(at + 1) =~= after);
}

/// The list of no parts is empty, and the list of one part is that part.
pub proof fn law_short_lists(part: Seq<char>)
    ensures
        listed(Seq::empty()) == Seq::<char>::empty(),
        listed(seq![part]) == part,
{
}

/// The list of some parts and some more is the two lists with a comma and a blank between them.
pub proof fn law_lists_are_joined(front: Seq<Seq<char>>, back: Seq<Seq<char>>)
    requires
        front.len() > 0,
        back.len() > 0,
    ensures
        listed(front + back) == listed(front) + seq![',', ' '] + listed(back),
    decreases back.len(),
{
    let all = front + back;
    reveal_strlit(", ");
    assert(", "@ =~= seq![',', ' ']);
    assert(all.last() == back.last());
    assert(all.drop_last() =~= front + back.drop_last());
    if back.len() == 1 {
        assert(all.drop_last() =~= front);
    } else {
        law_lists_are_joined(front, back.drop_last());
        assert(listed(all) =~= listed(front) + seq![',', ' '] + listed(back));
    }
}

/// The texts of string slices are those of each slice in turn.
pub proof fn law_texts_are_those_of_the_slices(slices: Seq<&str>)
    ensures
        texts(slices).len() == slices.len(),
        forall|i: int| 0 <= i < slices.len() ==> #[trigger] texts(slices)[i] == slices[i]@,
{
}

/// A text mentions what stands somewhere in it, and nothing else.
pub proof fn law_mention_stands_in_the_text(text: Seq<char>, part: Seq<char>)
    ensures
        mentions(text, part) <==> exists|at: int|
            0 <= at && at + part.len() <= text.len() && #[trigger] text.subrange(at, at + part.len()) == part,
{
    if mentions(text, part) {
        let (before, after) = choose|before: Seq<char>, after: Seq<char>|
            text == #[trigger] (before + part + after);
        let at = before.len() as int;
        assert(text.subrange(at, at + part.len()) =~= part);
    }
    if exists|at: int|
        0 <= at && at + part.len() <= text.len() && #[trigger] text.subrange(at, at + part.len()) == part {
        let at = choose|at: int|
            0 <= at && at + part.len() <= text.len() && #[trigger] text.subrange(at, at + part.len()) == part;
        assert(text =~= text.take(at) + part + text.skip(at + part.len()));
    }
}

} // verus!

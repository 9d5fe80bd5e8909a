//! Text as characters: cutting at a pattern and trimming whitespace.

use vstd::prelude::*;

verus! {

/// Whether `char::is_whitespace` holds of `c`.
pub uninterp spec fn is_space(c: char) -> bool;

/// `pattern` stands in `text` at position `at`.
pub open spec fn occurs_at(text: Seq<char>, pattern: Seq<char>, at: int) -> bool {
    &&& 0 <= at
    &&& at + pattern.len() <= text.len()
    &&& text.subrange(at, at + pattern.len()) == pattern
}

/// The pieces of `text` between the occurrences of `pattern`, taken from the
/// left and without overlap. There is always one piece more than there are
/// such occurrences.
///
/// An empty pattern stands before, between and after all characters.
pub open spec fn split(text: Seq<char>, pattern: Seq<char>) -> Seq<Seq<char>>
    decreases text.len(),
{
    if pattern.len() == 0 {
        seq![Seq::empty()] + Seq::new(text.len(), |i: int| seq![text[i]]) + seq![Seq::empty()]
    } else if text.len() == 0 {
        seq![text]
    } else if occurs_at(text, pattern, 0) {
        seq![Seq::empty()] + split(text.skip(pattern.len() as int), pattern)
    } else {
        let rest = split(text.skip(1), pattern);
        seq![seq![text[0]] + rest[0]] + rest.skip(1)
    }
}

/// `text` without its leading whitespace.
pub open spec fn trim_start(text: Seq<char>) -> Seq<char>
    decreases text.len(),
{
    if text.len() > 0 && is_space(text[0]) {
        trim_start(text.skip(1))
    } else {
        text
    }
}

/// `text` without its trailing whitespace.
pub open spec fn trim_end(text: Seq<char>) -> Seq<char>
    decreases text.len(),
{
    if text.len() > 0 && is_space(text[text.len() - 1]) {
        trim_end(text.take(text.len() - 1))
    } else {
        text
    }
}

/// `text` without its leading and trailing whitespace.
pub open spec fn trim(text: Seq<char>) -> Seq<char> {
    trim_end(trim_start(text))
}

/// The character sequences that the vectors hold.
pub open spec fn views(pieces: Seq<Vec<char>>) -> Seq<Seq<char>> {
    Seq::new(pieces.len(), |i: int| pieces[i]@)
}

/// Calls `char::is_whitespace`, which tells whether the character has the
/// Unicode property White_Space. The answer depends on the character alone;
/// `is_space` is the name of that answer, and nothing more is claimed of it.
#[verifier::external_body]
fn is_whitespace(c: char) -> (b: bool)
    ensures
        b == is_space(c),
{
    c.is_whitespace()
}

/// `String::push` appends the character to the end of the string.
pub assume_specification[ String::push ](s: &mut String, ch: char)
    ensures
        final(s)@ == old(s)@.push(ch),
;

/// The string that holds the characters of `chars`.
pub fn string_of(chars: &Vec<char>) -> (s: String)
    ensures
        s@ == chars@,
{
    let mut s = String::new();
    let mut i: usize = 0;
    while i < chars.len()
        invariant
            i <= chars.len(),
            s@ == chars@.take(i as int),
        decreases chars.len() - i,
    {
        s.push(chars[i]);
        assert(chars@.take(i + 1) =~= chars@.take(i as int).push(chars@[i as int]));
        i += 1;
    }
    assert(chars@.take(chars.len() as int) =~= chars@);
    s
}

/// The characters of `s`.
pub fn chars_of(s: &str) -> (chars: Vec<char>)
    ensures
        chars@ == s@,
{
    let mut chars: Vec<char> = Vec::new();
    for c in it: s.chars()
        invariant
            chars@ == it.seq().take(it.index()),
            it.seq() == s@,
    {
        chars.push(c);
    }
    chars
}

proof fn lemma_split_nonempty(text: Seq<char>, pattern: Seq<char>)
    ensures
        split(text, pattern).len() >= 1,
    decreases text.len(),
{
    if pattern.len() == 0 {
    } else if text.len() == 0 {
    } else if occurs_at(text, pattern, 0) {
        lemma_split_nonempty(text.skip(pattern.len() as int), pattern);
    } else {
        lemma_split_nonempty(text.skip(1), pattern);
    }
}

/// The pieces with `pattern` between each two of them.
pub open spec fn join(pieces: Seq<Seq<char>>, pattern: Seq<char>) -> Seq<char>
    decreases pieces.len(),
{
    if pieces.len() == 0 {
        Seq::empty()
    } else if pieces.len() == 1 {
        pieces[0]
    } else {
        pieces[0] + pattern + join(pieces.skip(1), pattern)
    }
}

proof fn lemma_join_with_first(first: Seq<char>, rest: Seq<Seq<char>>, pattern: Seq<char>)
    requires
        rest.len() >= 1,
    ensures
        join(seq![first] + rest, pattern) == first + pattern + join(rest, pattern),
{
    let all = seq![first] + rest;
    assert(all.len() >= 2);
    assert(all[0] == first);
    assert(all.skip(1) =~= rest);
}

proof fn lemma_join_grown_first(c: char, rest: Seq<Seq<char>>, pattern: Seq<char>)
    requires
        rest.len() >= 1,
    ensures
        join(seq![seq![c] + rest[0]] + rest.skip(1), pattern) == seq![c] + join(rest, pattern),
{
    let first = seq![c] + rest[0];
    let others = rest.skip(1);
    if rest.len() == 1 {
        assert(seq![first] + others =~= seq![first]);
    } else {
        lemma_join_with_first(first, others, pattern);
        let joined = join(others, pattern);
        assert(first + pattern + joined =~= seq![c] + (rest[0] + pattern + joined));
    }
}

/// Putting the pattern back between the pieces gives the text again.
pub proof fn lemma_split_joins_back(text: Seq<char>, pattern: Seq<char>)
    requires
        pattern.len() > 0,
    ensures
        join(split(text, pattern), pattern) == text,
    decreases text.len(),
{
    if text.len() == 0 {
    } else if occurs_at(text, pattern, 0) {
        let tail = text.skip(pattern.len() as int);
        lemma_split_nonempty(tail, pattern);
        lemma_split_joins_back(tail, pattern);
        lemma_join_with_first(Seq::<char>::empty(), split(tail, pattern), pattern);
        assert(Seq::<char>::empty() + pattern + tail =~= text) by {
            assert(text.subrange(0, pattern.len() as int) + tail =~= text);
        }
    } else {
        let tail = text.skip(1);
        lemma_split_nonempty(tail, pattern);
        lemma_split_joins_back(tail, pattern);
        lemma_join_grown_first(text[0], split(tail, pattern), pattern);
        assert(seq![text[0]] + tail =~= text);
    }
}

/// The first piece is the start of the text, and no piece holds the pattern.
pub proof fn lemma_pieces_hold_no_pattern(text: Seq<char>, pattern: Seq<char>)
    requires
        pattern.len() > 0,
    ensures
        split(text, pattern).len() >= 1,
        split(text, pattern)[0].len() <= text.len(),
        split(text, pattern)[0] == text.take(split(text, pattern)[0].len() as int),
        forall|k: int, at: int|
            0 <= k < split(text, pattern).len() ==> !#[trigger] occurs_at(
                split(text, pattern)[k],
                pattern,
                at,
            ),
    decreases text.len(),
{
    let pieces = split(text, pattern);
    if text.len() == 0 {
        assert(pieces[0] =~= text.take(0));
    } else if occurs_at(text, pattern, 0) {
        let tail = text.skip(pattern.len() as int);
        lemma_pieces_hold_no_pattern(tail, pattern);
        let rest = split(tail, pattern);
        assert(pieces[0] =~= text.take(0));
        assert forall|k: int, at: int| 0 <= k < pieces.len() implies !#[trigger] occurs_at(
            pieces[k],
            pattern,
            at,
        ) by {
            if k > 0 {
                assert(pieces[k] == rest[k - 1]);
            }
        }
    } else {
        let tail = text.skip(1);
        lemma_pieces_hold_no_pattern(tail, pattern);
        let rest = split(tail, pattern);
        let first = seq![text[0]] + rest[0];
        assert(pieces[0] == first);
        assert(first =~= text.take(first.len() as int)) by {
            assert(rest[0] == tail.take(rest[0].len() as int));
        }
        assert forall|k: int, at: int| 0 <= k < pieces.len() implies !#[trigger] occurs_at(
            pieces[k],
            pattern,
            at,
        ) by {
            if k > 0 {
                assert(pieces[k] == rest[k]);
            } else if occurs_at(first, pattern, at) {
                if at == 0 {
                    assert(text.subrange(0, pattern.len() as int) =~= first.subrange(
                        0,
                        pattern.len() as int,
                    ));
                } else {
                    assert(rest[0].subrange(at - 1, at - 1 + pattern.len()) =~= first.subrange(
                        at,
                        at + pattern.len(),
                    ));
                    assert(occurs_at(rest[0], pattern, at - 1));
                }
            }
        }
    }
}

fn matches_at(text: &Vec<char>, pattern: &Vec<char>, at: usize) -> (b: bool)
    requires
        at <= text.len(),
    ensures
        b == occurs_at(text@, pattern@, at as int),
{
    if pattern.len() > text.len() - at {
        return false;
    }
    let mut j: usize = 0;
    while j < pattern.len()
        invariant
            j <= pattern.len(),
            at + pattern.len() <= text.len(),
            forall|k: int| 0 <= k < j ==> text@[at + k] == pattern@[k],
        decreases pattern.len() - j,
    {
        if text[at + j] != pattern[j] {
            proof {
                assert(text@.subrange(at as int, at + pattern.len())[j as int] == text@[at + j]);
            }
            return false;
        }
        j += 1;
    }
    assert(text@.subrange(at as int, at + pattern.len()) =~= pattern@);
    true
}

fn split_chars(text: &Vec<char>) -> (pieces: Vec<Vec<char>>)
    ensures
        views(pieces@) == split(text@, Seq::<char>::empty()),
        pieces@.len() >= 1,
{
    let mut pieces: Vec<Vec<char>> = Vec::new();
    pieces.push(Vec::new());
    let mut i: usize = 0;
    while i < text.len()
        invariant
            i <= text.len(),
            pieces@.len() == i + 1,
            pieces@[0]@ == Seq::<char>::empty(),
            forall|k: int| 0 <= k < i ==> (#[trigger] pieces@[k + 1])@ == seq![text@[k]],
        decreases text.len() - i,
    {
        let mut one: Vec<char> = Vec::new();
        one.push(text[i]);
        assert(one@ =~= seq![text@[i as int]]);
        pieces.push(one);
        i += 1;
    }
    pieces.push(Vec::new());
    proof {
        let want = split(text@, Seq::<char>::empty());
        assert(views(pieces@).len() == want.len());
        assert forall|k: int| 0 <= k < want.len() implies views(pieces@)[k] == want[k] by {
            if 0 < k <= text.len() {
                assert(pieces@[(k - 1) + 1]@ == seq![text@[k - 1]]);
            }
        }
        assert(views(pieces@) =~= want);
    }
    pieces
}

/// The pieces of `text` between the occurrences of `pattern`.
pub fn split_on(text: &Vec<char>, pattern: &Vec<char>) -> (pieces: Vec<Vec<char>>)
    ensures
        views(pieces@) == split(text@, pattern@),
        pieces@.len() >= 1,
{
    if pattern.len() == 0 {
        return split_chars(text);
    }
    let mut pieces: Vec<Vec<char>> = Vec::new();
    let mut piece: Vec<char> = Vec::new();
    let mut i: usize = 0;
    proof {
        let all = split(text@, pattern@);
        lemma_split_nonempty(text@, pattern@);
        assert(text@.skip(0) =~= text@);
        assert(piece@ + all[0] =~= all[0]);
        assert(views(pieces@) + seq![all[0]] + all.skip(1) =~= all);
    }
    while i < text.len()
        invariant
            i <= text.len(),
            pattern@.len() > 0,
            split(text@, pattern@) == views(pieces@) + seq![
                piece@ + split(text@.skip(i as int), pattern@)[0],
            ] + split(text@.skip(i as int), pattern@).skip(1),
        decreases text.len() - i,
    {
        let ghost tail = text@.skip(i as int);
        let ghost done = views(pieces@);
        let hit = matches_at(text, pattern, i);
        proof {
            assert(occurs_at(tail, pattern@, 0) == occurs_at(text@, pattern@, i as int)) by {
                if i + pattern@.len() <= text@.len() {
                    assert(tail.subrange(0, pattern@.len() as int) =~= text@.subrange(
                        i as int,
                        i + pattern@.len(),
                    ));
                }
            }
        }
        if hit {
            proof {
                let next = text@.skip(i + pattern@.len());
                assert(tail.skip(pattern@.len() as int) =~= next);
                lemma_split_nonempty(next, pattern@);
                let rest = split(next, pattern@);
                assert(split(tail, pattern@) == seq![Seq::<char>::empty()] + rest);
                assert(piece@ + Seq::<char>::empty() =~= piece@);
                assert(split(tail, pattern@).skip(1) =~= rest);
                assert(rest =~= seq![Seq::<char>::empty() + rest[0]] + rest.skip(1));
                assert(views(pieces@.push(piece)) =~= done + seq![piece@]);
                assert(done + seq![piece@ + split(tail, pattern@)[0]] + split(
                    tail,
                    pattern@,
                ).skip(1) =~= (done + seq![piece@]) + seq![Seq::<char>::empty() + rest[0]]
                    + rest.skip(1));
            }
            pieces.push(piece);
            piece = Vec::new();
            i += pattern.len();
        } else {
            proof {
                let next = text@.skip(i + 1);
                assert(tail.skip(1) =~= next);
                lemma_split_nonempty(next, pattern@);
                let rest = split(next, pattern@);
                assert(split(tail, pattern@) == seq![seq![tail[0]] + rest[0]] + rest.skip(1));
                assert(split(tail, pattern@).skip(1) =~= rest.skip(1));
                assert(piece@ + (seq![tail[0]] + rest[0]) =~= piece@.push(text@[i as int])
                    + rest[0]);
            }
            piece.push(text[i]);
            i += 1;
        }
    }
    proof {
        let tail = text@.skip(i as int);
        assert(tail.len() == 0);
        assert(split(tail, pattern@) == seq![tail]);
        assert(piece@ + tail =~= piece@);
        assert(split(tail, pattern@).skip(1) =~= Seq::<Seq<char>>::empty());
        assert(views(pieces@.push(piece)) =~= views(pieces@) + seq![piece@]);
        assert(views(pieces@) + seq![piece@ + split(tail, pattern@)[0]] + split(
            tail,
            pattern@,
        ).skip(1) =~= views(pieces@) + seq![piece@]);
    }
    pieces.push(piece);
    pieces
}

proof fn lemma_trim_start_skips(text: Seq<char>, from: int)
    requires
        0 <= from <= text.len(),
        forall|k: int| 0 <= k < from ==> is_space(#[trigger] text[k]),
    ensures
        trim_start(text) == trim_start(text.skip(from)),
    decreases from,
{
    if from > 0 {
        lemma_trim_start_skips(text.skip(1), from - 1);
        assert(text.skip(1).skip(from - 1) =~= text.skip(from));
    } else {
        assert(text.skip(0) =~= text);
    }
}

proof fn lemma_trim_end_takes(text: Seq<char>, to: int)
    requires
        0 <= to <= text.len(),
        forall|k: int| to <= k < text.len() ==> is_space(#[trigger] text[k]),
    ensures
        trim_end(text) == trim_end(text.take(to)),
    decreases text.len() - to,
{
    if to < text.len() {
        lemma_trim_end_takes(text.take(text.len() - 1), to);
        assert(text.take(text.len() - 1).take(to) =~= text.take(to));
    } else {
        assert(text.take(to) =~= text);
    }
}

proof fn lemma_trim_start_is_tail(text: Seq<char>)
    ensures
        trim_start(text).len() <= text.len(),
        trim_start(text) == text.skip(text.len() - trim_start(text).len()),
        forall|k: int| 0 <= k < text.len() - trim_start(text).len() ==> is_space(#[trigger] text[k]),
        trim_start(text).len() > 0 ==> !is_space(trim_start(text)[0]),
    decreases text.len(),
{
    if text.len() > 0 && is_space(text[0]) {
        let tail = text.skip(1);
        lemma_trim_start_is_tail(tail);
        let lead = tail.len() - trim_start(tail).len();
        assert(tail.skip(lead) =~= text.skip(lead + 1));
        assert forall|k: int| 0 <= k < lead + 1 implies is_space(#[trigger] text[k]) by {
            if k > 0 {
                assert(text[k] == tail[k - 1]);
            }
        }
    } else {
        assert(text.skip(0) =~= text);
    }
}

proof fn lemma_trim_end_is_head(text: Seq<char>)
    ensures
        trim_end(text).len() <= text.len(),
        trim_end(text) == text.take(trim_end(text).len() as int),
        forall|k: int| trim_end(text).len() <= k < text.len() ==> is_space(#[trigger] text[k]),
        trim_end(text).len() > 0 ==> !is_space(trim_end(text)[trim_end(text).len() - 1]),
    decreases text.len(),
{
    if text.len() > 0 && is_space(text[text.len() - 1]) {
        let head = text.take(text.len() - 1);
        lemma_trim_end_is_head(head);
        let keep = trim_end(head).len() as int;
        assert(head.take(keep) =~= text.take(keep));
        assert forall|k: int| keep <= k < text.len() implies is_space(#[trigger] text[k]) by {
            if k < text.len() - 1 {
                assert(text[k] == head[k]);
            }
        }
    } else {
        assert(text.take(text.len() as int) =~= text);
    }
}

/// Trimming cuts whitespace from both ends and nothing else: what is left
/// is a part of the text with only whitespace before and after it, and it
/// neither begins nor ends with whitespace.
pub proof fn lemma_trim_cuts_whitespace(text: Seq<char>)
    ensures
        ({
            let from = text.len() - trim_start(text).len();
            let to = from + trim(text).len();
            &&& 0 <= from <= to <= text.len()
            &&& trim(text) == text.subrange(from, to)
            &&& forall|k: int| 0 <= k < from ==> is_space(#[trigger] text[k])
            &&& forall|k: int| to <= k < text.len() ==> is_space(#[trigger] text[k])
            &&& from < to ==> !is_space(text[from]) && !is_space(text[to - 1])
        }),
{
    let tail = trim_start(text);
    let from = text.len() - tail.len();
    lemma_trim_start_is_tail(text);
    lemma_trim_end_is_head(tail);
    let kept = trim_end(tail);
    let to = from + kept.len();
    assert(kept =~= text.subrange(from, to));
    assert forall|k: int| to <= k < text.len() implies is_space(#[trigger] text[k]) by {
        assert(text[k] == tail[k - from]);
    }
    if from < to {
        assert(kept[0] == tail[0]);
        assert(tail[0] == text[from]);
        assert(kept[kept.len() - 1] == text[to - 1]);
    }
}

/// `text` without its leading and trailing whitespace.
pub fn trimmed(text: &Vec<char>) -> (out: Vec<char>)
    ensures
        out@ == trim(text@),
{
    let mut from: usize = 0;
    while from < text.len() && is_whitespace(text[from])
        invariant
            from <= text.len(),
            forall|k: int| 0 <= k < from ==> is_space(#[trigger] text@[k]),
        decreases text.len() - from,
    {
        from += 1;
    }
    let mut to: usize = text.len();
    while to > from && is_whitespace(text[to - 1])
        invariant
            from <= to <= text.len(),
            forall|k: int| to <= k < text.len() ==> is_space(#[trigger] text@[k]),
        decreases to,
    {
        to -= 1;
    }
    let mut out: Vec<char> = Vec::new();
    let mut i: usize = from;
    while i < to
        invariant
            from <= i <= to <= text.len(),
            out@ == text@.subrange(from as int, i as int),
        decreases to - i,
    {
        out.push(text[i]);
        assert(text@.subrange(from as int, i + 1) =~= text@.subrange(from as int, i as int).push(
            text@[i as int],
        ));
        i += 1;
    }
    proof {
        let head = text@.skip(from as int);
        lemma_trim_start_skips(text@, from as int);
        assert(trim_start(head) == head);
        assert(trim_start(text@) == head);
        let keep = to - from;
        assert forall|k: int| keep <= k < head.len() implies is_space(#[trigger] head[k]) by {
            assert(head[k] == text@[from + k]);
        }
        lemma_trim_end_takes(head, keep);
        assert(head.take(keep) =~= text@.subrange(from as int, to as int));
        let body = head.take(keep);
        if body.len() > 0 {
            assert(body[body.len() - 1] == text@[to - 1]);
        }
        assert(trim_end(body) == body);
    }
    out
}

} // verus!

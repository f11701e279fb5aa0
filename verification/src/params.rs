//! The parameter string of a request, cut into command-line tokens.

use vstd::prelude::*;
use vstd::string::StrSliceExecFns;

use crate::text::{split, split_text, texts};

verus! {

/// Whether a character is white space: what `char::is_whitespace` says of
/// it.
pub uninterp spec fn white_space(c: char) -> bool;

/// Calls `char::is_whitespace`. The answer depends on the character alone,
/// and it is known here only by its name, `white_space`.
#[verifier::external_body]
fn is_white_space(c: char) -> (white: bool)
    ensures
        white == white_space(c),
{
    c.is_whitespace()
}

/// The text without the white space at its start.
pub open spec fn trim_start(text: Seq<char>) -> Seq<char>
    decreases text.len(),
{
    if text.len() > 0 && white_space(text.first()) {
        trim_start(text.drop_first())
    } else {
        text
    }
}

/// The text without the white space at its end.
pub open spec fn trim_end(text: Seq<char>) -> Seq<char>
    decreases text.len(),
{
    if text.len() > 0 && white_space(text.last()) {
        trim_end(text.drop_last())
    } else {
        text
    }
}

/// The text without the white space at its start and at its end.
pub open spec fn trimmed(text: Seq<char>) -> Seq<char> {
    trim_end(trim_start(text))
}

/// The tokens of one piece of a parameter string: the piece is split at
/// every space, and each part is trimmed.
pub open spec fn tokens_of(piece: Seq<char>) -> Seq<Seq<char>> {
    split(piece, ' ').map_values(|part: Seq<char>| trimmed(part))
}

/// The tokens of a list of pieces, in the order of the pieces.
pub open spec fn all_tokens(pieces: Seq<Seq<char>>) -> Seq<Seq<char>> {
    pieces.flat_map(|piece: Seq<char>| tokens_of(piece))
}

/// The command line that a program name and a parameter string stand for:
/// the program name, then the pieces of the parameter string between its
/// commas, each cut into tokens.
pub open spec fn parameter_tokens(program_name: Seq<char>, parameter: Seq<char>) -> Seq<
    Seq<char>,
> {
    all_tokens(seq![program_name] + split(parameter, ','))
}

/// Trimming at the start drops the white space up to the first character
/// that is none.
pub proof fn lemma_trim_start(text: Seq<char>, from: int)
    requires
        0 <= from <= text.len(),
        forall|i: int| 0 <= i < from ==> white_space(#[trigger] text[i]),
        from < text.len() ==> !white_space(text[from]),
    ensures
        trim_start(text) == text.skip(from),
    decreases from,
{
    if from == 0 {
        assert(text.skip(0) =~= text);
    } else {
        let rest = text.drop_first();
        assert forall|i: int| 0 <= i < from - 1 implies white_space(#[trigger] rest[i]) by {
            assert(rest[i] == text[i + 1]);
        }
        lemma_trim_start(rest, from - 1);
        assert(rest.skip(from - 1) =~= text.skip(from));
    }
}

/// Trimming at the end drops the white space after the last character that
/// is none.
pub proof fn lemma_trim_end(text: Seq<char>, to: int)
    requires
        0 <= to <= text.len(),
        forall|i: int| to <= i < text.len() ==> white_space(#[trigger] text[i]),
        0 < to ==> !white_space(text[to - 1]),
    ensures
        trim_end(text) == text.take(to),
    decreases text.len() - to,
{
    if to == text.len() {
        assert(text.take(to) =~= text);
    } else {
        let rest = text.drop_last();
        lemma_trim_end(rest, to);
        assert(rest.take(to) =~= text.take(to));
    }
}

/// The tokens of a list with one more piece are those of the list, then
/// those of the piece.
proof fn lemma_all_tokens_push(pieces: Seq<Seq<char>>, piece: Seq<char>)
    ensures
        all_tokens(pieces.push(piece)) == all_tokens(pieces) + tokens_of(piece),
{
    pieces.lemma_flat_map_push(|piece: Seq<char>| tokens_of(piece), piece);
}

/// Removes the white space at the start and at the end of a text.
pub fn trim_text<'a>(text: &'a str) -> (kept: &'a str)
    ensures
        kept@ == trimmed(text@),
{
    let total = text.unicode_len();
    let mut from: usize = 0;
    let mut to: usize = 0;
    let mut at: usize = 0;
    for c in rest: text.chars()
        invariant
            rest.seq() == text@,
            total == text@.len(),
            at == rest.index(),
            from <= at,
            to <= at,
            to == 0 ==> from == at,
            to > 0 ==> from < to,
            forall|i: int| 0 <= i < from ==> white_space(#[trigger] text@[i]),
            forall|i: int| to <= i < at ==> white_space(#[trigger] text@[i]),
            to > 0 ==> !white_space(text@[from as int]) && !white_space(text@[to - 1]),
    {
        if is_white_space(c) {
            if to == 0 {
                from = at + 1;
            }
        } else {
            to = at + 1;
        }
        at = at + 1;
    }
    let kept = if to == 0 {
        text.substring_char(total, total)
    } else {
        text.substring_char(from, to)
    };
    proof {
        lemma_trim_start(text@, from as int);
        if to == 0 {
            assert(text@.skip(from as int) =~= Seq::<char>::empty());
        } else {
            let tail = text@.skip(from as int);
            assert forall|i: int| to - from <= i < tail.len() implies white_space(
                #[trigger] tail[i],
            ) by {
                assert(tail[i] == text@[i + from]);
            }
            assert(tail[to - from - 1] == text@[to - 1]);
            lemma_trim_end(tail, to - from);
            assert(tail.take(to - from) =~= text@.subrange(from as int, to as int));
        }
    }
    kept
}

/// Adds the tokens of one piece of a parameter string to a list of tokens.
fn push_tokens<'a>(tokens: &mut Vec<&'a str>, piece: &'a str)
    ensures
        texts(final(tokens)@) == texts(old(tokens)@) + tokens_of(piece@),
{
    let parts = split_text(piece, ' ');
    let ghost start = texts(tokens@);
    let mut at: usize = 0;
    assert(tokens_of(piece@).take(0) =~= Seq::<Seq<char>>::empty());
    assert(texts(tokens@) =~= start + tokens_of(piece@).take(0));
    while at < parts.len()
        invariant
            at <= parts.len(),
            texts(parts@) == split(piece@, ' '),
            texts(tokens@) == start + tokens_of(piece@).take(at as int),
        decreases parts.len() - at,
    {
        let token = trim_text(parts[at]);
        proof {
            assert(texts(parts@)[at as int] == parts@[at as int]@);
            assert(tokens_of(piece@).take(at + 1) =~= tokens_of(piece@).take(at as int).push(
                token@,
            ));
            assert(texts(tokens@.push(token)) =~= texts(tokens@).push(token@));
        }
        tokens.push(token);
        at = at + 1;
    }
    assert(tokens_of(piece@).take(at as int) =~= tokens_of(piece@));
}

/// Cuts a parameter string into the command line that it stands for: the
/// program name comes first, then the pieces of the parameter string
/// between its commas; the program name and each piece are split at every
/// space, and each part is trimmed.
pub fn split_parameters<'a>(program_name: &'a str, parameter: &'a str) -> (tokens: Vec<&'a str>)
    ensures
        texts(tokens@) == parameter_tokens(program_name@, parameter@),
{
    let mut tokens: Vec<&'a str> = Vec::new();
    let ghost none = Seq::<Seq<char>>::empty();
    proof {
        lemma_all_tokens_push(none, program_name@);
        assert(all_tokens(none) =~= none) by {
            assert(none.map_values(|piece: Seq<char>| tokens_of(piece)) =~= Seq::empty());
        }
        assert(texts(tokens@) =~= none);
        assert(none.push(program_name@) =~= seq![program_name@]);
    }
    push_tokens(&mut tokens, program_name);
    let pieces = split_text(parameter, ',');
    let mut at: usize = 0;
    assert(seq![program_name@] + texts(pieces@).take(0) =~= seq![program_name@]);
    while at < pieces.len()
        invariant
            at <= pieces.len(),
            texts(pieces@) == split(parameter@, ','),
            texts(tokens@) == all_tokens(seq![program_name@] + texts(pieces@).take(at as int)),
        decreases pieces.len() - at,
    {
        proof {
            let seen = seq![program_name@] + texts(pieces@).take(at as int);
            lemma_all_tokens_push(seen, pieces@[at as int]@);
            assert(seen.push(pieces@[at as int]@) =~= seq![program_name@] + texts(pieces@).take(
                at + 1,
            ));
        }
        push_tokens(&mut tokens, pieces[at]);
        at = at + 1;
    }
    assert(texts(pieces@).take(at as int) =~= texts(pieces@));
    tokens
}

} // verus!

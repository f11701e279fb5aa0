//! Lexicographic order on sequences, and the texts that module paths are
//! made of.

use vstd::prelude::*;
use vstd::std_specs::iter::IteratorSpec;
use vstd::string::StrSliceExecFns;

verus! {

/// Where one value stands relative to another in a strict total order.
#[derive(Clone, Copy, Debug, PartialEq, Eq, Structural)]
pub enum Rank {
    /// The first value comes strictly before the second.
    Before,
    /// The two values are equal.
    Same,
    /// The first value comes strictly after the second.
    After,
}

/// `a` and `b` agree on their first `k` items.
pub open spec fn agree_upto<T>(a: Seq<T>, b: Seq<T>, k: int) -> bool {
    &&& 0 <= k <= a.len()
    &&& k <= b.len()
    &&& a.take(k) == b.take(k)
}

/// Lexicographic order: `a` comes strictly before `b` when, after a common
/// prefix, either `a` ends and `b` goes on, or the next item of `a` comes
/// before the next item of `b`.
pub open spec fn lex_precedes<T>(a: Seq<T>, b: Seq<T>, before: spec_fn(T, T) -> bool) -> bool {
    exists|k: int|
        #[trigger] agree_upto(a, b, k) && k < b.len() && (k < a.len() ==> before(a[k], b[k]))
}

/// Order of two texts: lexicographic by code point.
pub open spec fn text_precedes(a: Seq<char>, b: Seq<char>) -> bool {
    lex_precedes(a, b, |x: char, y: char| x < y)
}

/// Sequences that agree up to `k` agree up to every shorter length, item by
/// item.
proof fn lemma_agree_upto_items<T>(a: Seq<T>, b: Seq<T>, k: int)
    requires
        agree_upto(a, b, k),
    ensures
        forall|i: int| 0 <= i < k ==> a[i] == b[i],
        forall|j: int| 0 <= j <= k ==> agree_upto(a, b, j),
{
    assert forall|i: int| 0 <= i < k implies a[i] == b[i] by {
        assert(a.take(k)[i] == b.take(k)[i]);
    }
    assert forall|j: int| 0 <= j <= k implies agree_upto(a, b, j) by {
        assert(a.take(j) =~= b.take(j));
    }
}

/// No sequence comes before itself, as long as no item does.
pub proof fn lemma_lex_irreflexive<T>(a: Seq<T>, before: spec_fn(T, T) -> bool)
    requires
        forall|x: T| !#[trigger] before(x, x),
    ensures
        !lex_precedes(a, a, before),
{
}

/// The lexicographic order is transitive when the order of the items is.
pub proof fn lemma_lex_transitive<T>(
    a: Seq<T>,
    b: Seq<T>,
    c: Seq<T>,
    before: spec_fn(T, T) -> bool,
)
    requires
        forall|x: T, y: T, z: T|
            #![trigger before(x, y), before(y, z)]
            before(x, y) && before(y, z) ==> before(x, z),
        lex_precedes(a, b, before),
        lex_precedes(b, c, before),
    ensures
        lex_precedes(a, c, before),
{
    let i = choose|k: int|
        #[trigger] agree_upto(a, b, k) && k < b.len() && (k < a.len() ==> before(a[k], b[k]));
    let j = choose|k: int|
        #[trigger] agree_upto(b, c, k) && k < c.len() && (k < b.len() ==> before(b[k], c[k]));
    let k = if i <= j { i } else { j };
    lemma_agree_upto_items(a, b, i);
    lemma_agree_upto_items(b, c, j);
    assert(a.take(k) =~= c.take(k));
    assert(agree_upto(a, c, k));
}

/// Two sequences that agree up to `k` are equal, or one comes before the
/// other, when any two distinct items are ordered one way or the other.
pub proof fn lemma_lex_connected_from<T>(
    a: Seq<T>,
    b: Seq<T>,
    before: spec_fn(T, T) -> bool,
    k: int,
)
    requires
        forall|x: T, y: T| x != y ==> #[trigger] before(x, y) || before(y, x),
        agree_upto(a, b, k),
    ensures
        a == b || lex_precedes(a, b, before) || lex_precedes(b, a, before),
    decreases a.len() - k,
{
    assert(agree_upto(b, a, k));
    if k == a.len() {
        if k == b.len() {
            assert(a.take(k) == a);
            assert(b.take(k) == b);
        }
    } else if k < b.len() && a[k] == b[k] {
        assert(a.take(k + 1) =~= a.take(k).push(a[k]));
        assert(b.take(k + 1) =~= b.take(k).push(b[k]));
        lemma_lex_connected_from(a, b, before, k + 1);
    }
}

/// The order of texts is a strict total order.
pub proof fn lemma_text_order(a: Seq<char>, b: Seq<char>, c: Seq<char>)
    ensures
        !text_precedes(a, a),
        text_precedes(a, b) && text_precedes(b, c) ==> text_precedes(a, c),
        text_precedes(a, b) ==> !text_precedes(b, a),
        a == b || text_precedes(a, b) || text_precedes(b, a),
{
    let before = |x: char, y: char| x < y;
    lemma_lex_irreflexive(a, before);
    if text_precedes(a, b) && text_precedes(b, c) {
        lemma_lex_transitive(a, b, c, before);
    }
    if text_precedes(a, b) && text_precedes(b, a) {
        lemma_lex_transitive(a, b, a, before);
    }
    assert(a.take(0) =~= b.take(0));
    lemma_lex_connected_from(a, b, before, 0);
}

/// Compares two texts by code point, lexicographically.
pub fn compare_text(a: &str, b: &str) -> (rank: Rank)
    ensures
        rank == Rank::Before <==> text_precedes(a@, b@),
        rank == Rank::Same <==> a@ == b@,
        rank == Rank::After <==> text_precedes(b@, a@),
{
    proof {
        lemma_text_order(a@, b@, a@);
        lemma_text_order(b@, a@, b@);
    }
    let mut rest_a = a.chars();
    let mut rest_b = b.chars();
    let ghost mut k: int = 0;
    assert(a@.take(0) =~= b@.take(0));
    loop
        invariant
            agree_upto(a@, b@, k),
            rest_a.remaining() == a@.skip(k),
            rest_b.remaining() == b@.skip(k),
            rest_a.obeys_prophetic_iter_laws(),
            rest_b.obeys_prophetic_iter_laws(),
            !text_precedes(a@, a@),
            !text_precedes(b@, b@),
            text_precedes(a@, b@) ==> !text_precedes(b@, a@),
        decreases a@.len() - k,
    {
        let x = rest_a.next();
        let y = rest_b.next();
        proof {
            assert(agree_upto(b@, a@, k));
            if a@.skip(k).len() > 0 {
                assert(a@.skip(k)[0] == a@[k]);
            }
            if b@.skip(k).len() > 0 {
                assert(b@.skip(k)[0] == b@[k]);
            }
        }
        match (x, y) {
            (None, None) => {
                proof {
                    assert(a@.take(k) == a@);
                    assert(b@.take(k) == b@);
                }
                return Rank::Same;
            },
            (None, Some(_)) => {
                return Rank::Before;
            },
            (Some(_), None) => {
                return Rank::After;
            },
            (Some(c), Some(d)) => {
                if c < d {
                    return Rank::Before;
                }
                if d < c {
                    return Rank::After;
                }
                proof {
                    assert(a@.skip(k).drop_first() == a@.skip(k + 1));
                    assert(b@.skip(k).drop_first() == b@.skip(k + 1));
                    assert(a@.take(k + 1) =~= a@.take(k).push(a@[k]));
                    assert(b@.take(k + 1) =~= b@.take(k).push(b@[k]));
                    k = k + 1;
                }
            },
        }
    }
}

/// The pieces of `text` between occurrences of `sep`, in order. A text
/// without `sep` is one piece, and an empty text is one empty piece.
pub open spec fn split(text: Seq<char>, sep: char) -> Seq<Seq<char>>
    decreases text.len(),
{
    if text.len() == 0 {
        seq![Seq::empty()]
    } else {
        let before = split(text.drop_last(), sep);
        if text.last() == sep {
            before.push(Seq::empty())
        } else {
            before.drop_last().push(before.last().push(text.last()))
        }
    }
}

/// The parts, in order, with `sep` between each two neighbours.
pub open spec fn joined(parts: Seq<Seq<char>>, sep: Seq<char>) -> Seq<char>
    decreases parts.len(),
{
    if parts.len() == 0 {
        Seq::empty()
    } else if parts.len() == 1 {
        parts[0]
    } else {
        joined(parts.drop_last(), sep) + sep + parts.last()
    }
}

/// Splitting yields at least one piece, and no piece holds the separator.
pub proof fn lemma_split_pieces(text: Seq<char>, sep: char)
    ensures
        split(text, sep).len() >= 1,
        forall|i: int|
            0 <= i < split(text, sep).len() ==> !(#[trigger] split(text, sep)[i]).contains(sep),
    decreases text.len(),
{
    if text.len() > 0 {
        lemma_split_pieces(text.drop_last(), sep);
        let before = split(text.drop_last(), sep);
        if text.last() != sep {
            let grown = before.last().push(text.last());
            assert forall|j: int| 0 <= j < grown.len() implies grown[j] != sep by {
                if j < before.last().len() {
                    assert(before.last().contains(before.last()[j]));
                }
            }
        }
    }
}

/// Joining the pieces of a text with the separator gives the text back.
pub proof fn lemma_split_joined(text: Seq<char>, sep: char)
    ensures
        joined(split(text, sep), seq![sep]) == text,
    decreases text.len(),
{
    if text.len() > 0 {
        let shorter = text.drop_last();
        let before = split(shorter, sep);
        lemma_split_pieces(shorter, sep);
        lemma_split_joined(shorter, sep);
        let pieces = split(text, sep);
        if text.last() == sep {
            assert(pieces.drop_last() =~= before);
            assert(joined(pieces, seq![sep]) =~= shorter + seq![sep] + Seq::<char>::empty());
            assert(text =~= shorter + seq![sep] + Seq::<char>::empty());
        } else if before.len() == 1 {
            assert(joined(pieces, seq![sep]) =~= shorter.push(text.last()));
            assert(text =~= shorter.push(text.last()));
        } else {
            assert(pieces.drop_last() =~= before.drop_last());
            assert(joined(pieces, seq![sep]) =~= (joined(before.drop_last(), seq![sep]) + seq![sep]
                + before.last()).push(text.last()));
            assert(text =~= shorter.push(text.last()));
        }
    }
}

/// The views of a list of texts.
pub open spec fn texts(parts: Seq<&str>) -> Seq<Seq<char>> {
    parts.map_values(|part: &str| part@)
}

/// Splits `text` at every occurrence of `sep`.
pub fn split_text<'a>(text: &'a str, sep: char) -> (parts: Vec<&'a str>)
    ensures
        texts(parts@) == split(text@, sep),
        parts@.len() >= 1,
        forall|i: int| 0 <= i < parts@.len() ==> !(#[trigger] parts@[i])@.contains(sep),
        joined(texts(parts@), seq![sep]) == text@,
{
    proof {
        lemma_split_pieces(text@, sep);
        lemma_split_joined(text@, sep);
    }
    let total = text.unicode_len();
    let mut parts: Vec<&'a str> = Vec::new();
    let mut start: usize = 0;
    let mut at: usize = 0;
    assert(text@.take(0) =~= Seq::<char>::empty());
    assert(texts(parts@).push(text@.subrange(0, 0)) =~= split(text@.take(0), sep));
    for c in rest: text.chars()
        invariant
            rest.seq() == text@,
            total == text@.len(),
            at == rest.index(),
            start <= at <= total,
            texts(parts@).push(text@.subrange(start as int, at as int)) == split(
                text@.take(at as int),
                sep,
            ),
    {
        proof {
            let grown = text@.take(at + 1);
            assert(grown.drop_last() =~= text@.take(at as int));
            assert(grown.last() == c);
            if c != sep {
                assert(text@.subrange(start as int, at + 1) =~= text@.subrange(
                    start as int,
                    at as int,
                ).push(c));
                assert(texts(parts@).push(text@.subrange(start as int, at as int)).drop_last()
                    =~= texts(parts@));
            }
        }
        if c == sep {
            let piece = text.substring_char(start, at);
            proof {
                assert(texts(parts@.push(piece)) =~= texts(parts@).push(piece@));
                assert(text@.subrange(at + 1, at + 1) =~= Seq::<char>::empty());
            }
            parts.push(piece);
            start = at + 1;
        }
        at = at + 1;
    }
    let piece = text.substring_char(start, total);
    proof {
        assert(text@.take(total as int) =~= text@);
        assert(texts(parts@.push(piece)) =~= texts(parts@).push(piece@));
    }
    parts.push(piece);
    assert forall|i: int| 0 <= i < parts@.len() implies !(#[trigger] parts@[i])@.contains(
        sep,
    ) by {
        assert(texts(parts@)[i] == parts@[i]@);
    }
    parts
}

} // verus!

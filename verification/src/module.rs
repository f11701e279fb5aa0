//! Module paths: the hierarchical names that schema packages are filed under.

use heck::ToSnakeCase;
use vstd::prelude::*;
use vstd::string::StringExecFns;

use crate::text::{
    agree_upto, compare_text, joined, lemma_lex_connected_from, lemma_lex_irreflexive,
    lemma_lex_transitive, lemma_split_pieces, lemma_text_order, lex_precedes, split, split_text,
    text_precedes, texts, Rank,
};

verus! {

/// The snake-case form of a word: what `heck` makes of it.
pub uninterp spec fn snake_case(word: Seq<char>) -> Seq<char>;

/// Calls `heck::ToSnakeCase::to_snake_case` on a string slice. The result
/// depends on the characters of the word alone, and it is known here only by
/// its name, `snake_case`.
#[verifier::external_body]
fn to_snake_case(word: &str) -> (converted: String)
    ensures
        converted@ == snake_case(word@),
{
    word.to_snake_case()
}

/// The views of a list of owned texts.
pub open spec fn views(parts: Seq<String>) -> Seq<Seq<char>> {
    parts.map_values(|part: String| part@)
}

/// The components that a list of package segments contributes to a module
/// path: the empty segments are dropped, the others are put in snake case.
pub open spec fn normalized(segments: Seq<Seq<char>>) -> Seq<Seq<char>> {
    segments.filter(|segment: Seq<char>| segment.len() > 0).map_values(
        |segment: Seq<char>| snake_case(segment),
    )
}

/// The module path of a dot-separated package name.
pub open spec fn package_path(package: Seq<char>) -> Seq<Seq<char>> {
    normalized(split(package, '.'))
}

/// Order of two module paths: lexicographic, component by component, each
/// component compared as a text. A path comes before every path that extends
/// it.
pub open spec fn path_precedes(a: Seq<Seq<char>>, b: Seq<Seq<char>>) -> bool {
    lex_precedes(a, b, |x: Seq<char>, y: Seq<char>| text_precedes(x, y))
}

/// One more segment adds one component when it is not empty, and nothing
/// when it is.
proof fn lemma_normalized_push(segments: Seq<Seq<char>>, segment: Seq<char>)
    ensures
        normalized(segments.push(segment)) == if segment.len() > 0 {
            normalized(segments).push(snake_case(segment))
        } else {
            normalized(segments)
        },
{
    let keep = |segment: Seq<char>| segment.len() > 0;
    let convert = |segment: Seq<char>| snake_case(segment);
    segments.lemma_filter_push(segment, keep);
    if segment.len() > 0 {
        segments.filter(keep).lemma_push_map_commute(convert, segment);
    }
}

/// The order of module paths is a strict total order.
pub proof fn lemma_path_order(a: Seq<Seq<char>>, b: Seq<Seq<char>>, c: Seq<Seq<char>>)
    ensures
        !path_precedes(a, a),
        path_precedes(a, b) && path_precedes(b, c) ==> path_precedes(a, c),
        path_precedes(a, b) ==> !path_precedes(b, a),
        a == b || path_precedes(a, b) || path_precedes(b, a),
{
    let before = |x: Seq<char>, y: Seq<char>| text_precedes(x, y);
    assert forall|x: Seq<char>| !#[trigger] before(x, x) by {
        lemma_text_order(x, x, x);
    }
    assert forall|x: Seq<char>, y: Seq<char>, z: Seq<char>|
        #![trigger before(x, y), before(y, z)]
        before(x, y) && before(y, z) implies before(x, z) by {
        lemma_text_order(x, y, z);
    }
    assert forall|x: Seq<char>, y: Seq<char>| x != y implies #[trigger] before(x, y) || before(
        y,
        x,
    ) by {
        lemma_text_order(x, y, x);
    }
    lemma_lex_irreflexive(a, before);
    if path_precedes(a, b) && path_precedes(b, c) {
        lemma_lex_transitive(a, b, c, before);
    }
    if path_precedes(a, b) && path_precedes(b, a) {
        lemma_lex_transitive(a, b, a, before);
    }
    assert(a.take(0) =~= b.take(0));
    lemma_lex_connected_from(a, b, before, 0);
}

/// A path comes before every path that extends it.
pub proof fn lemma_prefix_precedes(a: Seq<Seq<char>>, b: Seq<Seq<char>>)
    requires
        a.len() < b.len(),
        a == b.take(a.len() as int),
    ensures
        path_precedes(a, b),
{
    assert(a.take(a.len() as int) =~= b.take(a.len() as int));
    assert(agree_upto(a, b, a.len() as int));
}

/// A segment of a package name that counts: one of the pieces between its
/// dots, and not empty.
pub open spec fn is_segment(package: Seq<char>, segment: Seq<char>) -> bool {
    &&& split(package, '.').contains(segment)
    &&& segment.len() > 0
    &&& !segment.contains('.')
}

/// The snake-case form of some segment of the package name.
pub open spec fn is_component(package: Seq<char>, component: Seq<char>) -> bool {
    exists|segment: Seq<char>| #[trigger]
        is_segment(package, segment) && component == snake_case(segment)
}

/// Every component of the module path of a package name is the snake-case
/// form of a segment of the name.
pub proof fn lemma_package_path_components(package: Seq<char>)
    ensures
        forall|i: int|
            0 <= i < package_path(package).len() ==> is_component(
                package,
                #[trigger] package_path(package)[i],
            ),
{
    let pieces = split(package, '.');
    let keep = |segment: Seq<char>| segment.len() > 0;
    let kept = pieces.filter(keep);
    lemma_split_pieces(package, '.');
    assert forall|i: int| 0 <= i < package_path(package).len() implies is_component(
        package,
        #[trigger] package_path(package)[i],
    ) by {
        pieces.lemma_filter_pred(keep, i);
        assert(kept.contains(kept[i]));
        pieces.lemma_filter_contains_rev(keep, kept[i]);
        let at = choose|at: int| 0 <= at < pieces.len() && pieces[at] == kept[i];
        assert(!pieces[at].contains('.'));
        assert(is_segment(package, kept[i]));
    }
}

/// No component of the module path of a package name is empty, as long as
/// no segment of the name has an empty snake-case form.
pub proof fn lemma_components_not_empty(package: Seq<char>)
    requires
        forall|segment: Seq<char>| #[trigger]
            is_segment(package, segment) ==> snake_case(segment).len() > 0,
    ensures
        forall|i: int|
            0 <= i < package_path(package).len() ==> (#[trigger] package_path(package)[i]).len()
                > 0,
{
    lemma_package_path_components(package);
}

/// Paths derived from one package name are equal, and neither comes before
/// the other.
pub proof fn lemma_derivation_repeats(first: Module, second: Module, package: Seq<char>)
    requires
        first@ == package_path(package),
        second@ == package_path(package),
    ensures
        first@ == second@,
        !path_precedes(first@, second@),
        !path_precedes(second@, first@),
{
    lemma_path_order(first@, second@, first@);
}

/// A module path: the ordered components under which the files of one schema
/// package are filed.
#[derive(Clone, Debug, PartialEq, Eq, Hash, PartialOrd, Ord)]
pub struct Module {
    components: Vec<String>,
}

impl View for Module {
    type V = Seq<Seq<char>>;

    /// The components of the path, in order.
    closed spec fn view(&self) -> Seq<Seq<char>> {
        views(self.components@)
    }
}

impl Module {
    /// Makes a module path of the given components, taken as they are.
    pub fn from_parts(parts: Vec<String>) -> (module: Module)
        ensures
            module@ == views(parts@),
    {
        Module { components: parts }
    }

    /// Derives the module path of a dot-separated package name: the name is
    /// split at every dot, the empty segments are dropped, and each of the
    /// others is put in snake case.
    pub fn from_protobuf_package_name(name: &str) -> (module: Module)
        ensures
            module@ == package_path(name@),
    {
        let segments = split_text(name, '.');
        let mut components: Vec<String> = Vec::new();
        let mut at: usize = 0;
        assert(texts(segments@).take(0) =~= Seq::<Seq<char>>::empty());
        assert(views(components@) =~= normalized(Seq::<Seq<char>>::empty())) by {
            let keep = |segment: Seq<char>| segment.len() > 0;
            assert(Seq::<Seq<char>>::empty().filter(keep) =~= Seq::<Seq<char>>::empty()) by {
                reveal(Seq::filter);
            }
        }
        while at < segments.len()
            invariant
                at <= segments.len(),
                texts(segments@) == split(name@, '.'),
                views(components@) == normalized(texts(segments@).take(at as int)),
            decreases segments.len() - at,
        {
            let segment = segments[at];
            proof {
                let seen = texts(segments@).take(at as int);
                assert(texts(segments@).take(at + 1) =~= seen.push(segment@));
                lemma_normalized_push(seen, segment@);
            }
            if !segment.is_empty() {
                let component = to_snake_case(segment);
                assert(views(components@.push(component)) =~= views(components@).push(
                    component@,
                ));
                components.push(component);
            }
            at = at + 1;
        }
        assert(texts(segments@).take(at as int) =~= texts(segments@));
        Module { components }
    }

    /// The components of the path, in order.
    pub fn parts(&self) -> (parts: &Vec<String>)
        ensures
            views(parts@) == self@,
    {
        &self.components
    }

    /// The number of components in the path.
    pub fn len(&self) -> (count: usize)
        ensures
            count == self@.len(),
    {
        self.components.len()
    }

    /// Whether the path has no component.
    pub fn is_empty(&self) -> (empty: bool)
        ensures
            empty <==> self@.len() == 0,
    {
        self.components.len() == 0
    }

    /// The path as one text: its components with `::` between them, and
    /// nothing for the empty path.
    pub fn to_string(&self) -> (shown: String)
        ensures
            shown@ == joined(self@, "::"@),
    {
        let mut shown = String::new();
        let mut at: usize = 0;
        assert(self@.take(0) =~= Seq::<Seq<char>>::empty());
        while at < self.components.len()
            invariant
                at <= self.components.len(),
                shown@ == joined(self@.take(at as int), "::"@),
            decreases self.components.len() - at,
        {
            proof {
                let grown = self@.take(at + 1);
                assert(grown.drop_last() =~= self@.take(at as int));
                assert(grown.last() == self.components@[at as int]@);
            }
            if at > 0 {
                shown.append("::");
            }
            shown.append(self.components[at].as_str());
            proof {
                if at == 0 {
                    assert(shown@ =~= self.components@[0]@);
                }
            }
            at = at + 1;
        }
        assert(self@.take(at as int) =~= self@);
        shown
    }

    /// Compares two paths in the order of module paths.
    pub fn compare(&self, other: &Module) -> (rank: Rank)
        ensures
            rank == Rank::Before <==> path_precedes(self@, other@),
            rank == Rank::Same <==> self@ == other@,
            rank == Rank::After <==> path_precedes(other@, self@),
    {
        proof {
            lemma_path_order(self@, other@, self@);
            lemma_path_order(other@, self@, other@);
        }
        let mut at: usize = 0;
        assert(self@.take(0) =~= other@.take(0));
        loop
            invariant
                agree_upto(self@, other@, at as int),
                at <= self.components.len(),
                at <= other.components.len(),
                !path_precedes(self@, self@),
                !path_precedes(other@, other@),
                path_precedes(self@, other@) ==> !path_precedes(other@, self@),
            decreases self.components.len() - at,
        {
            proof {
                assert(agree_upto(other@, self@, at as int));
            }
            if at == self.components.len() {
                if at == other.components.len() {
                    proof {
                        assert(self@.take(at as int) == self@);
                        assert(other@.take(at as int) == other@);
                    }
                    return Rank::Same;
                }
                return Rank::Before;
            }
            if at == other.components.len() {
                return Rank::After;
            }
            let rank = compare_text(self.components[at].as_str(), other.components[at].as_str());
            match rank {
                Rank::Before => {
                    return Rank::Before;
                },
                Rank::After => {
                    return Rank::After;
                },
                Rank::Same => {
                    proof {
                        assert(self@.take(at + 1) =~= self@.take(at as int).push(self@[at as int]));
                        assert(other@.take(at + 1) =~= other@.take(at as int).push(
                            other@[at as int],
                        ));
                    }
                    at = at + 1;
                },
            }
        }
    }
}

} // verus!

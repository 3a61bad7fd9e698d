//! Version tags: their order, and the one tag that stands for each major
//! line, which is the highest stable tag of the line.

use crate::text::{chars_of, string_of, texts};
use std::collections::HashMap;
use vstd::prelude::*;

verus! {

broadcast use vstd::std_specs::hash::group_hash_axioms;

/// A semantic version: `major.minor.patch`, with the pre-release marker
/// that may follow after a hyphen. An empty marker means there is none.
#[derive(Debug, Clone, PartialEq, Eq)]
pub struct SemVer {
    pub major: u64,
    pub minor: u64,
    pub patch: u64,
    pub pre: String,
}

/// What a `SemVer` holds.
pub ghost struct SemVerView {
    pub major: nat,
    pub minor: nat,
    pub patch: nat,
    pub pre: Seq<char>,
}

impl View for SemVer {
    type V = SemVerView;

    open spec fn view(&self) -> SemVerView {
        SemVerView { major: self.major as nat, minor: self.minor as nat, patch: self.patch as nat, pre: self.pre@ }
    }
}

/// The semantic version that `text` stands for, or `None` where `text` is
/// not one.
pub uninterp spec fn semver_of(text: Seq<char>) -> Option<SemVerView>;

/// The operators by which two versions are compared.
#[derive(Debug, Clone, Copy, PartialEq, Eq)]
pub enum Operator {
    /// Less than or equal: the order of a list that ascends.
    Le,
    /// Greater than or equal: the order of a list that descends.
    Ge,
}

/// Whether `a` stands in the relation `operator` to `b`, both read and
/// compared as `version_compare` does; `None` where it reads one of them as
/// no version.
pub uninterp spec fn version_compare_to(a: Seq<char>, b: Seq<char>, operator: Operator) -> Option<bool>;

/// `semver::Version::parse`: what it returns depends on the text alone, so
/// the result has a name. A parse error gives `None`; of a version, the
/// three numbers and the text of the pre-release are handed on.
#[verifier::external_body]
fn parse_semver(text: &str) -> (r: Option<SemVer>)
    ensures
        match r {
            Some(version) => semver_of(text@) == Some(version@),
            None => semver_of(text@) is None,
        },
{
    semver::Version::parse(text).ok().map(
        |v| SemVer { major: v.major, minor: v.minor, patch: v.patch, pre: v.pre.as_str().to_owned() },
    )
}

/// `version_compare::compare_to`: what it returns depends on the two texts
/// and the operator alone, so the result has a name. Its error, which says
/// that a text is no version, gives `None`.
#[verifier::external_body]
fn compare_to(a: &str, b: &str, operator: Operator) -> (r: Option<bool>)
    ensures
        r == version_compare_to(a@, b@, operator),
{
    let operator = match operator {
        Operator::Le => version_compare::Cmp::Le,
        Operator::Ge => version_compare::Cmp::Ge,
    };
    version_compare::compare_to(a, b, operator).ok()
}

/// `tag` without one leading `v`.
pub open spec fn strip_v(tag: Seq<char>) -> Seq<char> {
    if tag.len() > 0 && tag[0] == 'v' {
        tag.skip(1)
    } else {
        tag
    }
}

/// The numbers of a tag that names a stable version: the tag, without a
/// leading `v`, is a semantic version with no pre-release marker, and the
/// numbers are its major, minor and patch.
pub open spec fn stable_version(tag: Seq<char>) -> Option<(nat, nat, nat)> {
    match semver_of(strip_v(tag)) {
        Some(version) => if version.pre.len() == 0 {
            Some((version.major, version.minor, version.patch))
        } else {
            None
        },
        None => None,
    }
}

/// The major number of a tag that names a stable version.
pub open spec fn stable_major(tag: Seq<char>) -> Option<nat> {
    match stable_version(tag) {
        Some(numbers) => Some(numbers.0),
        None => None,
    }
}

/// Whether the version `a` is higher than the version `b`: by the major
/// number, then the minor, then the patch.
pub open spec fn higher(a: (nat, nat, nat), b: (nat, nat, nat)) -> bool {
    a.0 > b.0 || (a.0 == b.0 && (a.1 > b.1 || (a.1 == b.1 && a.2 > b.2)))
}

/// Whether `kept` can stand for `tag`: both are stable versions of one
/// major line, and `tag` is not the higher of the two.
pub open spec fn stands_for(kept: Seq<char>, tag: Seq<char>) -> bool {
    stable_version(kept) matches Some(k) && stable_version(tag) matches Some(t) && k.0 == t.0 && !higher(t, k)
}

/// Whether one of `list` can stand for `tag`.
pub open spec fn serves(list: Seq<Seq<char>>, tag: Seq<char>) -> bool {
    exists|i: int| 0 <= i < list.len() && stands_for(#[trigger] list[i], tag)
}

/// Whether every stable version among `tags` has one of `list` that can
/// stand for it: no major line is missing, and no stable tag is higher
/// than the tag of its line.
pub open spec fn serves_all(list: Seq<Seq<char>>, tags: Seq<Seq<char>>) -> bool {
    forall|j: int| 0 <= j < tags.len() && stable_version(#[trigger] tags[j]) is Some ==> serves(list, tags[j])
}

/// The orders in which lists of versions are put.
#[derive(Debug, Clone, Copy, PartialEq, Eq)]
pub enum SortOrder {
    /// Oldest first; the texts are compared as they are.
    Ascending,
    /// Newest first; each tag is compared without one leading `v`.
    DescendingTags,
    /// Highest major line first; the tags are stable versions, and their
    /// major numbers are compared.
    DescendingMajors,
}

/// The operator that an order asks of two texts. The order of the major
/// lines asks nothing of the comparison of texts; it goes by the numbers.
pub open spec fn operator_of(order: SortOrder) -> Operator {
    match order {
        SortOrder::Ascending => Operator::Le,
        SortOrder::DescendingTags => Operator::Ge,
        SortOrder::DescendingMajors => Operator::Ge,
    }
}

/// The text that an order hands to the comparison of texts for a tag.
pub open spec fn compared(tag: Seq<char>, order: SortOrder) -> Seq<char> {
    match order {
        SortOrder::Ascending => tag,
        SortOrder::DescendingTags => strip_v(tag),
        SortOrder::DescendingMajors => tag,
    }
}

/// Whether one text may stand before another, as the comparison of texts
/// has it: it says so; or it cannot compare the two, and can read the first.
pub open spec fn text_related(a: Seq<char>, b: Seq<char>, operator: Operator) -> bool {
    match version_compare_to(a, b, operator) {
        Some(holds) => holds,
        None => version_compare_to(a, a, operator) is Some,
    }
}

/// Whether `order` can read `tag`: by major lines, the tag is a stable
/// version; else the comparison of texts can compare the tag, as the order
/// hands it over, with itself.
pub open spec fn reads(tag: Seq<char>, order: SortOrder) -> bool {
    match order {
        SortOrder::DescendingMajors => stable_major(tag) is Some,
        _ => version_compare_to(compared(tag, order), compared(tag, order), operator_of(order)) is Some,
    }
}

/// Whether `a` may stand before `b` in a list in `order`. By major lines:
/// `a` is a stable version, and `b` is none or of no higher major line.
/// Else: what the order hands over of `a` may stand before what it hands
/// over of `b`, as the comparison of texts has it.
pub open spec fn related(a: Seq<char>, b: Seq<char>, order: SortOrder) -> bool {
    match order {
        SortOrder::DescendingMajors => match (stable_major(a), stable_major(b)) {
            (Some(x), Some(y)) => x >= y,
            (Some(_), None) => true,
            _ => false,
        },
        _ => text_related(compared(a, order), compared(b, order), operator_of(order)),
    }
}

/// Whether `a` is to stand before `b` in a list in `order`: `a` may stand
/// before `b`, and `b` may not stand before `a`. So a tag that the order can
/// read stands before one that it cannot, and two that it cannot read never
/// stand before one another.
pub open spec fn precedes(a: Seq<char>, b: Seq<char>, order: SortOrder) -> bool {
    related(a, b, order) && !related(b, a, order)
}

/// `sorted` with `x` put in from the end: `x` moves towards the front past
/// every item that it is to stand before, and stops at the first that it
/// is not.
pub open spec fn inserted(sorted: Seq<Seq<char>>, x: Seq<char>, order: SortOrder) -> Seq<Seq<char>>
    decreases sorted.len(),
{
    if sorted.len() > 0 && precedes(x, sorted.last(), order) {
        inserted(sorted.drop_last(), x, order).push(sorted.last())
    } else {
        sorted.push(x)
    }
}

/// `tags` in `order`: each tag in turn is put into the list of those before
/// it. Tags that do not stand before one another keep the order in which
/// they came; what the order cannot read comes last.
pub open spec fn sorted_by(tags: Seq<Seq<char>>, order: SortOrder) -> Seq<Seq<char>>
    decreases tags.len(),
{
    if tags.len() == 0 {
        tags
    } else {
        inserted(sorted_by(tags.drop_last(), order), tags.last(), order)
    }
}

/// No item is to stand before the one just ahead of it.
pub open spec fn in_order(tags: Seq<Seq<char>>, order: SortOrder) -> bool {
    forall|i: int| 0 < i < tags.len() ==> !precedes(#[trigger] tags[i], tags[i - 1], order)
}

/// Whether one of `tags` is a stable version of the major line `major`.
pub open spec fn has_major(tags: Seq<Seq<char>>, major: nat) -> bool {
    exists|i: int| 0 <= i < tags.len() && stable_major(#[trigger] tags[i]) == Some(major)
}

/// Every tag is a stable version, and no two are of the same major line.
pub open spec fn one_per_major(tags: Seq<Seq<char>>) -> bool {
    &&& forall|i: int| 0 <= i < tags.len() ==> stable_major(#[trigger] tags[i]) is Some
    &&& forall|i: int, j: int|
        0 <= i < j < tags.len() ==> stable_major(#[trigger] tags[i]) != stable_major(#[trigger] tags[j])
}

/// Where the tag of the major line `major` stands in `tags`.
pub open spec fn line_of(tags: Seq<Seq<char>>, major: nat) -> int {
    choose|k: int| 0 <= k < tags.len() && stable_major(#[trigger] tags[k]) == Some(major)
}

/// One stable tag for each major line of `tags`, the lines in the order in
/// which `tags` first has a stable tag of them. The tag of a line is the
/// first of its tags that no other of them is higher than, by major, minor
/// and patch. Tags that are no semantic version, or that carry a
/// pre-release marker, are passed over.
pub open spec fn representatives(tags: Seq<Seq<char>>) -> Seq<Seq<char>>
    decreases tags.len(),
{
    if tags.len() == 0 {
        tags
    } else {
        let init = representatives(tags.drop_last());
        match stable_version(tags.last()) {
            Some(numbers) => if has_major(init, numbers.0) {
                let at = line_of(init, numbers.0);
                if higher(numbers, stable_version(init[at]).unwrap()) {
                    init.update(at, tags.last())
                } else {
                    init
                }
            } else {
                init.push(tags.last())
            },
            None => init,
        }
    }
}

/// One tag for each major line among `tags`, newest first: the tags are put
/// in descending order, of each major line the highest stable tag is kept
/// (of equals the first), and what is kept is put in the descending order
/// of the major lines.
pub open spec fn major_versions(tags: Seq<Seq<char>>) -> Seq<Seq<char>> {
    sorted_by(representatives(sorted_by(tags, SortOrder::DescendingTags)), SortOrder::DescendingMajors)
}

/// Whether `a` and `b` are stable versions, `a` of a higher major line than
/// `b`.
pub open spec fn line_above(a: Seq<char>, b: Seq<char>) -> bool {
    match (stable_major(a), stable_major(b)) {
        (Some(x), Some(y)) => x > y,
        _ => false,
    }
}

/// Every tag is a stable version of a higher major line than all behind it.
pub open spec fn majors_descend(tags: Seq<Seq<char>>) -> bool {
    forall|i: int, j: int|
        0 <= i < j < tags.len() ==> line_above(#[trigger] tags[i], #[trigger] tags[j])
}

/// Putting `x` in gives the list with `x` at the place where it stops.
pub proof fn lemma_inserted_at(sorted: Seq<Seq<char>>, x: Seq<char>, order: SortOrder, at: int)
    requires
        0 <= at <= sorted.len(),
        forall|j: int| at <= j < sorted.len() ==> precedes(x, #[trigger] sorted[j], order),
        at == 0 || !precedes(x, sorted[at - 1], order),
    ensures
        inserted(sorted, x, order) == sorted.insert(at, x),
    decreases sorted.len(),
{
    if at == sorted.len() {
        assert(sorted.insert(at, x) =~= sorted.push(x));
    } else {
        lemma_inserted_at(sorted.drop_last(), x, order, at);
        assert(sorted.drop_last().insert(at, x).push(sorted.last()) =~= sorted.insert(at, x));
    }
}

/// There is a place at which `x` is put in.
pub proof fn lemma_inserted_somewhere(sorted: Seq<Seq<char>>, x: Seq<char>, order: SortOrder) -> (at: int)
    ensures
        0 <= at <= sorted.len(),
        inserted(sorted, x, order) == sorted.insert(at, x),
    decreases sorted.len(),
{
    if sorted.len() > 0 && precedes(x, sorted.last(), order) {
        let at = lemma_inserted_somewhere(sorted.drop_last(), x, order);
        assert(sorted.drop_last().insert(at, x).push(sorted.last()) =~= sorted.insert(at, x));
        at
    } else {
        assert(sorted.insert(sorted.len() as int, x) =~= sorted.push(x));
        sorted.len() as int
    }
}

/// Sorting rearranges: the result holds the same tags, each as often.
pub proof fn lemma_sorted_permutes(tags: Seq<Seq<char>>, order: SortOrder)
    ensures
        sorted_by(tags, order).to_multiset() == tags.to_multiset(),
        sorted_by(tags, order).len() == tags.len(),
    decreases tags.len(),
{
    broadcast use vstd::seq_lib::to_multiset_len;

    if tags.len() > 0 {
        let front = sorted_by(tags.drop_last(), order);
        lemma_sorted_permutes(tags.drop_last(), order);
        let at = lemma_inserted_somewhere(front, tags.last(), order);
        vstd::seq_lib::to_multiset_insert(front, at, tags.last());
        vstd::seq_lib::to_multiset_build(tags.drop_last(), tags.last());
        assert(tags.drop_last().push(tags.last()) =~= tags);
    }
}

/// Putting a tag into an ordered list leaves it ordered.
pub proof fn lemma_inserted_in_order(sorted: Seq<Seq<char>>, x: Seq<char>, order: SortOrder)
    requires
        in_order(sorted, order),
    ensures
        in_order(inserted(sorted, x, order), order),
        inserted(sorted, x, order).len() == sorted.len() + 1,
        inserted(sorted, x, order).last() == if sorted.len() > 0 && precedes(x, sorted.last(), order) {
            sorted.last()
        } else {
            x
        },
    decreases sorted.len(),
{
    if sorted.len() > 0 && precedes(x, sorted.last(), order) {
        let front = sorted.drop_last();
        assert(in_order(front, order)) by {
            assert forall|i: int| 0 < i < front.len() implies !precedes(#[trigger] front[i], front[i - 1], order) by {
                assert(front[i] == sorted[i]);
            }
        }
        lemma_inserted_in_order(front, x, order);
        let inner = inserted(front, x, order);
        let all = inner.push(sorted.last());
        assert forall|i: int| 0 < i < all.len() implies !precedes(#[trigger] all[i], all[i - 1], order) by {
            if i < inner.len() {
                assert(all[i] == inner[i]);
            } else {
                if front.len() > 0 && precedes(x, front.last(), order) {
                    assert(inner.last() == sorted[sorted.len() - 2]);
                    assert(!precedes(sorted[sorted.len() - 1], sorted[sorted.len() - 2], order));
                }
            }
        }
    } else {
        let all = sorted.push(x);
        assert forall|i: int| 0 < i < all.len() implies !precedes(#[trigger] all[i], all[i - 1], order) by {
            if i < sorted.len() {
                assert(all[i] == sorted[i]);
            }
        }
    }
}

/// A sorted list is ordered.
pub proof fn lemma_sorted_in_order(tags: Seq<Seq<char>>, order: SortOrder)
    ensures
        in_order(sorted_by(tags, order), order),
    decreases tags.len(),
{
    if tags.len() > 0 {
        lemma_sorted_in_order(tags.drop_last(), order);
        lemma_inserted_in_order(sorted_by(tags.drop_last(), order), tags.last(), order);
    }
}

/// Sorting an ordered list changes nothing.
pub proof fn lemma_sorted_of_ordered(tags: Seq<Seq<char>>, order: SortOrder)
    requires
        in_order(tags, order),
    ensures
        sorted_by(tags, order) == tags,
    decreases tags.len(),
{
    if tags.len() > 0 {
        let front = tags.drop_last();
        assert(in_order(front, order)) by {
            assert forall|i: int| 0 < i < front.len() implies !precedes(#[trigger] front[i], front[i - 1], order) by {
                assert(front[i] == tags[i]);
            }
        }
        lemma_sorted_of_ordered(front, order);
        if front.len() > 0 {
            assert(!precedes(tags[tags.len() - 1], tags[tags.len() - 2], order));
        }
        assert(front.push(tags.last()) =~= tags);
    }
}

/// Sorting twice is sorting once.
pub proof fn lemma_sort_idempotent(tags: Seq<Seq<char>>, order: SortOrder)
    ensures
        sorted_by(sorted_by(tags, order), order) == sorted_by(tags, order),
{
    lemma_sorted_in_order(tags, order);
    lemma_sorted_of_ordered(sorted_by(tags, order), order);
}

/// Putting a stable tag of a new major line into a list with one tag per
/// major line leaves one tag per major line.
pub proof fn lemma_insert_one_per_major(tags: Seq<Seq<char>>, at: int, x: Seq<char>)
    requires
        0 <= at <= tags.len(),
    ensures
        forall|major: nat|
            has_major(tags.insert(at, x), major) <==> has_major(tags, major) || stable_major(x) == Some(major),
        one_per_major(tags) && stable_major(x) is Some && !has_major(tags, stable_major(x).unwrap())
            ==> one_per_major(tags.insert(at, x)),
{
    let all = tags.insert(at, x);
    tags.insert_ensures(at, x);
    assert forall|major: nat|
        has_major(all, major) <==> has_major(tags, major) || stable_major(x) == Some(major) by {
        if has_major(all, major) {
            let i = choose|i: int| 0 <= i < all.len() && stable_major(#[trigger] all[i]) == Some(major);
            if i < at {
                assert(tags[i] == all[i]);
            } else if i > at {
                assert(tags[i - 1] == all[i]);
            }
        }
        if has_major(tags, major) {
            let i = choose|i: int| 0 <= i < tags.len() && stable_major(#[trigger] tags[i]) == Some(major);
            if i < at {
                assert(all[i] == tags[i]);
            } else {
                assert(all[i + 1] == tags[i]);
            }
        }
        if stable_major(x) == Some(major) {
            assert(all[at] == x);
        }
    }
    if one_per_major(tags) && stable_major(x) is Some && !has_major(tags, stable_major(x).unwrap()) {
        assert forall|i: int| 0 <= i < all.len() implies stable_major(#[trigger] all[i]) is Some by {
            if i < at {
                assert(tags[i] == all[i]);
            } else if i > at {
                assert(tags[i - 1] == all[i]);
            }
        }
        assert forall|i: int, j: int| 0 <= i < j < all.len() implies stable_major(#[trigger] all[i])
            != stable_major(#[trigger] all[j]) by {
            let a = if i < at {
                i
            } else {
                i - 1
            };
            let b = if j < at {
                j
            } else {
                j - 1
            };
            if i != at {
                assert(tags[a] == all[i]);
            }
            if j != at {
                assert(tags[b] == all[j]);
            }
        }
    }
}

/// Sorting keeps the major lines, and keeps one tag per major line.
pub proof fn lemma_sorted_one_per_major(tags: Seq<Seq<char>>, order: SortOrder)
    ensures
        forall|major: nat| has_major(sorted_by(tags, order), major) <==> has_major(tags, major),
        one_per_major(tags) ==> one_per_major(sorted_by(tags, order)),
    decreases tags.len(),
{
    if tags.len() == 0 {
    } else {
        let front = tags.drop_last();
        let last = tags.last();
        let sorted_front = sorted_by(front, order);
        lemma_sorted_one_per_major(front, order);
        let at = lemma_inserted_somewhere(sorted_front, last, order);
        lemma_insert_one_per_major(sorted_front, at, last);
        lemma_insert_one_per_major(front, front.len() as int, last);
        assert(front.insert(front.len() as int, last) =~= tags);
        assert forall|major: nat| has_major(sorted_by(tags, order), major) <==> has_major(tags, major) by {
            assert(has_major(sorted_front.insert(at, last), major) <==> has_major(sorted_front, major)
                || stable_major(last) == Some(major));
            assert(has_major(front.insert(front.len() as int, last), major) <==> has_major(front, major)
                || stable_major(last) == Some(major));
        }
        if one_per_major(tags) {
            assert(one_per_major(front)) by {
                assert forall|i: int| 0 <= i < front.len() implies stable_major(#[trigger] front[i]) is Some by {
                    assert(front[i] == tags[i]);
                }
                assert forall|i: int, j: int| 0 <= i < j < front.len() implies stable_major(#[trigger] front[i])
                    != stable_major(#[trigger] front[j]) by {
                    assert(front[i] == tags[i] && front[j] == tags[j]);
                }
            }
            assert(stable_major(last) is Some) by {
                assert(tags[tags.len() - 1] == last);
            }
            assert(!has_major(front, stable_major(last).unwrap())) by {
                if has_major(front, stable_major(last).unwrap()) {
                    let i = choose|i: int|
                        0 <= i < front.len() && stable_major(#[trigger] front[i]) == Some(stable_major(last).unwrap());
                    assert(front[i] == tags[i]);
                    assert(tags[tags.len() - 1] == last);
                }
            }
        }
    }
}

/// In a list with one tag per major line, the tag of a line stands where
/// `line_of` says.
pub proof fn lemma_line_of(tags: Seq<Seq<char>>, major: nat, at: int)
    requires
        one_per_major(tags),
        0 <= at < tags.len(),
        stable_major(tags[at]) == Some(major),
    ensures
        line_of(tags, major) == at,
{
    let chosen = line_of(tags, major);
    assert(0 <= chosen < tags.len() && stable_major(tags[chosen]) == Some(major));
    if chosen < at {
        assert(stable_major(tags[chosen]) != stable_major(tags[at]));
    } else if at < chosen {
        assert(stable_major(tags[at]) != stable_major(tags[chosen]));
    }
}

/// Putting a tag in the place of another of its major line keeps the major
/// lines, and keeps one tag per major line.
pub proof fn lemma_update_one_per_major(tags: Seq<Seq<char>>, at: int, x: Seq<char>)
    requires
        0 <= at < tags.len(),
        stable_major(x) is Some,
        stable_major(x) == stable_major(tags[at]),
    ensures
        forall|major: nat| has_major(tags.update(at, x), major) <==> has_major(tags, major),
        one_per_major(tags) ==> one_per_major(tags.update(at, x)),
{
    let all = tags.update(at, x);
    assert forall|major: nat| has_major(all, major) <==> has_major(tags, major) by {
        if has_major(all, major) {
            let i = choose|i: int| 0 <= i < all.len() && stable_major(#[trigger] all[i]) == Some(major);
            if i == at {
                assert(stable_major(tags[at]) == Some(major));
            } else {
                assert(tags[i] == all[i]);
            }
        }
        if has_major(tags, major) {
            let i = choose|i: int| 0 <= i < tags.len() && stable_major(#[trigger] tags[i]) == Some(major);
            if i == at {
                assert(stable_major(all[at]) == Some(major));
            } else {
                assert(all[i] == tags[i]);
            }
        }
    }
    if one_per_major(tags) {
        assert forall|i: int| 0 <= i < all.len() implies stable_major(#[trigger] all[i]) is Some by {
            if i != at {
                assert(tags[i] == all[i]);
            }
        }
        assert forall|i: int, j: int| 0 <= i < j < all.len() implies stable_major(#[trigger] all[i])
            != stable_major(#[trigger] all[j]) by {
            assert(stable_major(all[i]) == stable_major(tags[i]));
            assert(stable_major(all[j]) == stable_major(tags[j]));
        }
    }
}

/// The representatives are stable tags, one for each major line that has a
/// stable tag; each is one of the tags given; and every stable tag given
/// has a representative of its major line that is not lower than it.
pub proof fn lemma_representatives(tags: Seq<Seq<char>>)
    ensures
        one_per_major(representatives(tags)),
        forall|major: nat| has_major(representatives(tags), major) <==> has_major(tags, major),
        forall|i: int|
            0 <= i < representatives(tags).len() ==> tags.contains(#[trigger] representatives(tags)[i]),
        representatives(tags).len() <= tags.len(),
        serves_all(representatives(tags), tags),
    decreases tags.len(),
{
    let reps = representatives(tags);
    if tags.len() > 0 {
        let front = tags.drop_last();
        let last = tags.last();
        let init = representatives(front);
        lemma_representatives(front);
        lemma_insert_one_per_major(front, front.len() as int, last);
        assert(front.insert(front.len() as int, last) =~= tags);
        assert(tags[tags.len() - 1] == last);
        assert forall|i: int| 0 <= i < init.len() implies tags.contains(#[trigger] init[i]) by {
            assert(front.contains(init[i]));
            let k = choose|k: int| 0 <= k < front.len() && front[k] == init[i];
            assert(tags[k] == init[i]);
        }
        match stable_version(last) {
            None => {
                assert(reps == init);
                assert forall|major: nat| has_major(reps, major) <==> has_major(tags, major) by {
                    assert(has_major(front.insert(front.len() as int, last), major) <==> has_major(front, major)
                        || stable_major(last) == Some(major));
                }
                assert forall|j: int| 0 <= j < tags.len() && stable_version(#[trigger] tags[j]) is Some implies serves(
                    reps,
                    tags[j],
                ) by {
                    assert(front[j] == tags[j]);
                }
            },
            Some(numbers) => {
                if has_major(init, numbers.0) {
                    let at = line_of(init, numbers.0);
                    assert(0 <= at < init.len() && stable_major(init[at]) == Some(numbers.0));
                    let old = stable_version(init[at]).unwrap();
                    lemma_update_one_per_major(init, at, last);
                    assert forall|major: nat| has_major(reps, major) <==> has_major(tags, major) by {
                        assert(has_major(init.update(at, last), major) <==> has_major(init, major));
                        assert(has_major(front.insert(front.len() as int, last), major) <==> has_major(front, major)
                            || stable_major(last) == Some(major));
                    }
                    if higher(numbers, old) {
                        assert(reps == init.update(at, last));
                        assert forall|i: int| 0 <= i < reps.len() implies tags.contains(#[trigger] reps[i]) by {
                            if i != at {
                                assert(reps[i] == init[i]);
                            }
                        }
                        assert forall|j: int|
                            0 <= j < tags.len() && stable_version(#[trigger] tags[j]) is Some implies serves(
                            reps,
                            tags[j],
                        ) by {
                            if j < front.len() {
                                assert(front[j] == tags[j]);
                                assert(serves(init, front[j]));
                                let i = choose|i: int| 0 <= i < init.len() && stands_for(#[trigger] init[i], front[j]);
                                if i == at {
                                    assert(stands_for(reps[at], tags[j]));
                                } else {
                                    assert(reps[i] == init[i]);
                                    assert(stands_for(reps[i], tags[j]));
                                }
                            } else {
                                assert(stands_for(reps[at], tags[j]));
                            }
                        }
                    } else {
                        assert(reps == init);
                        assert forall|j: int|
                            0 <= j < tags.len() && stable_version(#[trigger] tags[j]) is Some implies serves(
                            reps,
                            tags[j],
                        ) by {
                            if j < front.len() {
                                assert(front[j] == tags[j]);
                            } else {
                                assert(stands_for(reps[at], tags[j]));
                            }
                        }
                    }
                } else {
                    assert(reps == init.push(last));
                    lemma_insert_one_per_major(init, init.len() as int, last);
                    assert(init.insert(init.len() as int, last) =~= init.push(last));
                    assert forall|major: nat| has_major(reps, major) <==> has_major(tags, major) by {
                        assert(has_major(init.insert(init.len() as int, last), major) <==> has_major(init, major)
                            || stable_major(last) == Some(major));
                        assert(has_major(front.insert(front.len() as int, last), major) <==> has_major(front, major)
                            || stable_major(last) == Some(major));
                    }
                    assert forall|i: int| 0 <= i < reps.len() implies tags.contains(#[trigger] reps[i]) by {
                        if i < init.len() {
                            assert(reps[i] == init[i]);
                        }
                    }
                    assert forall|j: int|
                        0 <= j < tags.len() && stable_version(#[trigger] tags[j]) is Some implies serves(
                        reps,
                        tags[j],
                    ) by {
                        if j < front.len() {
                            assert(front[j] == tags[j]);
                            assert(serves(init, front[j]));
                            let i = choose|i: int| 0 <= i < init.len() && stands_for(#[trigger] init[i], front[j]);
                            assert(reps[i] == init[i]);
                            assert(stands_for(reps[i], tags[j]));
                        } else {
                            assert(stands_for(reps[reps.len() - 1], tags[j]));
                        }
                    }
                }
            },
        }
    }
}

/// Of a list with one tag per major line, every tag is a representative.
pub proof fn lemma_representatives_of_one_per_major(tags: Seq<Seq<char>>)
    requires
        one_per_major(tags),
    ensures
        representatives(tags) == tags,
    decreases tags.len(),
{
    if tags.len() > 0 {
        let front = tags.drop_last();
        let last = tags.last();
        assert(one_per_major(front)) by {
            assert forall|i: int| 0 <= i < front.len() implies stable_major(#[trigger] front[i]) is Some by {
                assert(front[i] == tags[i]);
            }
            assert forall|i: int, j: int| 0 <= i < j < front.len() implies stable_major(#[trigger] front[i])
                != stable_major(#[trigger] front[j]) by {
                assert(front[i] == tags[i] && front[j] == tags[j]);
            }
        }
        lemma_representatives_of_one_per_major(front);
        assert(tags[tags.len() - 1] == last);
        assert(stable_major(last) is Some);
        if has_major(front, stable_major(last).unwrap()) {
            let i = choose|i: int|
                0 <= i < front.len() && stable_major(#[trigger] front[i]) == Some(stable_major(last).unwrap());
            assert(front[i] == tags[i]);
        }
        assert(front.push(last) =~= tags);
    }
}

/// In a list with one tag per major line that is in the order of the major
/// lines, every tag is of a higher line than all behind it.
pub proof fn lemma_majors_descend(tags: Seq<Seq<char>>)
    requires
        one_per_major(tags),
        in_order(tags, SortOrder::DescendingMajors),
    ensures
        majors_descend(tags),
{
    assert forall|i: int, j: int| 0 <= i < j < tags.len() implies line_above(#[trigger] tags[i], #[trigger] tags[j]) by {
        lemma_majors_descend_between(tags, i, j);
    }
}

/// The step of `lemma_majors_descend` for one pair of places.
pub proof fn lemma_majors_descend_between(tags: Seq<Seq<char>>, i: int, j: int)
    requires
        one_per_major(tags),
        in_order(tags, SortOrder::DescendingMajors),
        0 <= i < j < tags.len(),
    ensures
        line_above(tags[i], tags[j]),
    decreases j - i,
{
    assert(stable_major(tags[i]) is Some && stable_major(tags[j]) is Some);
    assert(stable_major(tags[j - 1]) is Some);
    assert(stable_major(tags[j - 1]) != stable_major(tags[j]));
    assert(!precedes(tags[j], tags[j - 1], SortOrder::DescendingMajors));
    if i < j - 1 {
        lemma_majors_descend_between(tags, i, j - 1);
    }
}

/// Two lists of the same tags, each descending by major lines, are one
/// list.
pub proof fn lemma_descending_unique(x: Seq<Seq<char>>, y: Seq<Seq<char>>)
    requires
        majors_descend(x),
        majors_descend(y),
        x.to_multiset() == y.to_multiset(),
    ensures
        x == y,
    decreases x.len(),
{
    broadcast use {vstd::seq_lib::to_multiset_contains, vstd::multiset::group_multiset_axioms};

    vstd::seq_lib::to_multiset_len(x);
    vstd::seq_lib::to_multiset_len(y);
    assert(x.len() == y.len());
    if x.len() == 0 {
        assert(x =~= y);
    } else {
        let last = x.last();
        assert(x.contains(last));
        assert(x.to_multiset().count(last) > 0);
        assert(y.contains(last));
        let k = choose|k: int| 0 <= k < y.len() && y[k] == last;
        if k < y.len() - 1 {
            let other = y.last();
            assert(y.contains(other));
            assert(y.to_multiset().count(other) > 0);
            assert(x.contains(other));
            let m = choose|m: int| 0 <= m < x.len() && x[m] == other;
            assert(line_above(y[k], y[y.len() - 1]));
            if m < x.len() - 1 {
                assert(line_above(x[m], x[x.len() - 1]));
            }
            assert(false);
        }
        assert(y.last() == last);
        let xs = x.drop_last();
        let ys = y.drop_last();
        assert(x =~= xs.push(last));
        assert(y =~= ys.push(last));
        vstd::seq_lib::to_multiset_build(xs, last);
        vstd::seq_lib::to_multiset_build(ys, last);
        assert(xs.to_multiset() =~= ys.to_multiset()) by {
            assert forall|e: Seq<char>| xs.to_multiset().count(e) == ys.to_multiset().count(e) by {
                assert(xs.to_multiset().insert(last).count(e) == ys.to_multiset().insert(last).count(e));
            }
        }
        assert(majors_descend(xs)) by {
            assert forall|i: int, j: int| 0 <= i < j < xs.len() implies line_above(#[trigger] xs[i], #[trigger] xs[j]) by {
                assert(xs[i] == x[i] && xs[j] == x[j]);
            }
        }
        assert(majors_descend(ys)) by {
            assert forall|i: int, j: int| 0 <= i < j < ys.len() implies line_above(#[trigger] ys[i], #[trigger] ys[j]) by {
                assert(ys[i] == y[i] && ys[j] == y[j]);
            }
        }
        lemma_descending_unique(xs, ys);
    }
}

/// The result of `major_versions` holds one stable tag for each major line
/// that has a stable tag among `tags`, each of them one of `tags`; every
/// tag in it is of a higher major line than all behind it; and every stable
/// tag of `tags` has in it a tag of its major line that is not lower than
/// it.
pub proof fn lemma_major_versions(tags: Seq<Seq<char>>)
    ensures
        one_per_major(major_versions(tags)),
        forall|major: nat| has_major(major_versions(tags), major) <==> has_major(tags, major),
        forall|i: int|
            0 <= i < major_versions(tags).len() ==> tags.contains(#[trigger] major_versions(tags)[i]),
        majors_descend(major_versions(tags)),
        major_versions(tags).len() <= tags.len(),
        serves_all(major_versions(tags), tags),
{
    broadcast use vstd::seq_lib::to_multiset_contains;

    let sorted = sorted_by(tags, SortOrder::DescendingTags);
    let reps = representatives(sorted);
    let out = major_versions(tags);
    lemma_sorted_one_per_major(tags, SortOrder::DescendingTags);
    lemma_sorted_permutes(tags, SortOrder::DescendingTags);
    lemma_representatives(sorted);
    lemma_sorted_one_per_major(reps, SortOrder::DescendingMajors);
    lemma_sorted_permutes(reps, SortOrder::DescendingMajors);
    lemma_sorted_in_order(reps, SortOrder::DescendingMajors);
    lemma_majors_descend(out);
    assert forall|i: int| 0 <= i < out.len() implies tags.contains(#[trigger] out[i]) by {
        assert(out.contains(out[i]));
        assert(out.to_multiset().count(out[i]) > 0);
        assert(reps.contains(out[i]));
        let k = choose|k: int| 0 <= k < reps.len() && reps[k] == out[i];
        assert(sorted.contains(reps[k]));
        assert(sorted.to_multiset().count(out[i]) > 0);
    }
    assert forall|j: int| 0 <= j < tags.len() && stable_version(#[trigger] tags[j]) is Some implies serves(
        out,
        tags[j],
    ) by {
        assert(tags.contains(tags[j]));
        assert(tags.to_multiset().count(tags[j]) > 0);
        assert(sorted.contains(tags[j]));
        let k = choose|k: int| 0 <= k < sorted.len() && sorted[k] == tags[j];
        assert(stable_version(sorted[k]) is Some);
        assert(serves(reps, sorted[k]));
        let i = choose|i: int| 0 <= i < reps.len() && stands_for(#[trigger] reps[i], sorted[k]);
        assert(reps.contains(reps[i]));
        assert(reps.to_multiset().count(reps[i]) > 0);
        assert(out.contains(reps[i]));
        let m = choose|m: int| 0 <= m < out.len() && out[m] == reps[i];
        assert(stands_for(out[m], tags[j]));
    }
}

/// Run on its own result, `major_versions` gives that result again.
pub proof fn lemma_major_versions_idempotent(tags: Seq<Seq<char>>)
    ensures
        major_versions(major_versions(tags)) == major_versions(tags),
{
    let out = major_versions(tags);
    let sorted = sorted_by(out, SortOrder::DescendingTags);
    let again = major_versions(out);
    lemma_major_versions(tags);
    lemma_sorted_one_per_major(out, SortOrder::DescendingTags);
    lemma_sorted_permutes(out, SortOrder::DescendingTags);
    lemma_representatives_of_one_per_major(sorted);
    lemma_sorted_one_per_major(sorted, SortOrder::DescendingMajors);
    lemma_sorted_permutes(sorted, SortOrder::DescendingMajors);
    lemma_sorted_in_order(sorted, SortOrder::DescendingMajors);
    lemma_majors_descend(again);
    lemma_descending_unique(again, out);
}

/// Whether `order` orders `tags`: of any two that it can read, one may
/// stand before the other; among those that it can read, what may stand
/// before a tag may stand before all that the tag may stand before; and
/// what it can read is to stand before what it cannot.
pub open spec fn orders(tags: Seq<Seq<char>>, order: SortOrder) -> bool {
    &&& forall|a: Seq<char>, b: Seq<char>|
        #![trigger tags.contains(a), tags.contains(b)]
        tags.contains(a) && tags.contains(b) && reads(a, order) && reads(b, order) ==> related(a, b, order)
            || related(b, a, order)
    &&& forall|a: Seq<char>, b: Seq<char>, c: Seq<char>|
        #![trigger tags.contains(a), tags.contains(b), tags.contains(c)]
        tags.contains(a) && tags.contains(b) && tags.contains(c) && reads(a, order) && reads(b, order) && reads(
            c,
            order,
        ) && related(a, b, order) && related(b, c, order) ==> related(a, c, order)
    &&& forall|a: Seq<char>, b: Seq<char>|
        #![trigger tags.contains(a), tags.contains(b)]
        tags.contains(a) && tags.contains(b) && reads(a, order) && !reads(b, order) ==> precedes(a, b, order)
}

/// Where the order orders the tags of an ordered list: before a tag that
/// the order can read stand only tags that it can read, and each of them
/// may stand before it.
pub proof fn lemma_in_order_throughout(tags: Seq<Seq<char>>, order: SortOrder, i: int, j: int)
    requires
        orders(tags, order),
        in_order(tags, order),
        0 <= i <= j < tags.len(),
        reads(tags[j], order),
    ensures
        reads(tags[i], order),
        related(tags[i], tags[j], order),
    decreases j - i,
{
    assert(tags.contains(tags[i]));
    assert(tags.contains(tags[j]));
    if i < j {
        assert(tags.contains(tags[j - 1]));
        assert(!precedes(tags[j], tags[j - 1], order));
        assert(reads(tags[j - 1], order));
        lemma_in_order_throughout(tags, order, i, j - 1);
    }
}

/// Where the order orders the tags, the sorted list follows it throughout:
/// what the order cannot read comes last, and of the tags that it can read
/// each may stand before all behind it.
pub proof fn lemma_sorted_throughout(tags: Seq<Seq<char>>, order: SortOrder)
    requires
        orders(tags, order),
    ensures
        forall|i: int, j: int|
            0 <= i <= j < sorted_by(tags, order).len() && reads(#[trigger] sorted_by(tags, order)[j], order)
                ==> reads(#[trigger] sorted_by(tags, order)[i], order) && related(
                sorted_by(tags, order)[i],
                sorted_by(tags, order)[j],
                order,
            ),
{
    broadcast use vstd::seq_lib::to_multiset_contains;

    let sorted = sorted_by(tags, order);
    lemma_sorted_permutes(tags, order);
    lemma_sorted_in_order(tags, order);
    assert forall|x: Seq<char>| sorted.contains(x) <==> tags.contains(x) by {
        assert(sorted.contains(x) <==> sorted.to_multiset().count(x) > 0);
        assert(tags.contains(x) <==> tags.to_multiset().count(x) > 0);
    }
    assert(orders(sorted, order));
    assert forall|i: int, j: int|
        0 <= i <= j < sorted.len() && reads(#[trigger] sorted[j], order) implies reads(
        #[trigger] sorted[i],
        order,
    ) && related(sorted[i], sorted[j], order) by {
        lemma_in_order_throughout(sorted, order, i, j);
    }
}

/// The order of the major lines orders every list of tags.
pub proof fn lemma_major_lines_order(tags: Seq<Seq<char>>)
    ensures
        orders(tags, SortOrder::DescendingMajors),
{
}

impl SemVer {
    /// Reads a semantic version.
    pub fn parse(text: &str) -> (r: Option<SemVer>)
        ensures
            match r {
                Some(version) => semver_of(text@) == Some(version@),
                None => semver_of(text@) is None,
            },
    {
        parse_semver(text)
    }

    /// Whether the version carries no pre-release marker.
    pub fn is_stable(&self) -> (r: bool)
        ensures
            r == (self@.pre.len() == 0),
    {
        self.pre.as_str().is_empty()
    }
}

/// The version, where it is stable.
pub fn validate_version(version: SemVer) -> (r: Option<SemVer>)
    ensures
        r == if version@.pre.len() == 0 {
            Some(version)
        } else {
            None
        },
{
    if version.is_stable() {
        Some(version)
    } else {
        None
    }
}

/// The major, minor and patch of `tag`, where `tag` names a stable version.
pub fn stable_version_of(tag: &str) -> (r: Option<(u64, u64, u64)>)
    ensures
        match r {
            Some(numbers) => stable_version(tag@) == Some((numbers.0 as nat, numbers.1 as nat, numbers.2 as nat)),
            None => stable_version(tag@) is None,
        },
{
    let chars = chars_of(tag);
    let parsed = if chars.len() > 0 && chars[0] == 'v' {
        let stripped = string_of(&chars, 1, chars.len());
        assert(chars@.skip(1) =~= chars@.subrange(1, chars@.len() as int));
        SemVer::parse(stripped.as_str())
    } else {
        SemVer::parse(tag)
    };
    match parsed {
        Some(version) => match validate_version(version) {
            Some(stable) => Some((stable.major, stable.minor, stable.patch)),
            None => None,
        },
        None => None,
    }
}

/// The major number of `tag`, where `tag` names a stable version.
pub fn stable_major_of(tag: &str) -> (r: Option<u64>)
    ensures
        match r {
            Some(major) => stable_major(tag@) == Some(major as nat),
            None => stable_major(tag@) is None,
        },
{
    match stable_version_of(tag) {
        Some(numbers) => Some(numbers.0),
        None => None,
    }
}

/// Whether the version `a` is higher than the version `b`.
pub fn is_higher(a: (u64, u64, u64), b: (u64, u64, u64)) -> (r: bool)
    ensures
        r == higher((a.0 as nat, a.1 as nat, a.2 as nat), (b.0 as nat, b.1 as nat, b.2 as nat)),
{
    a.0 > b.0 || (a.0 == b.0 && (a.1 > b.1 || (a.1 == b.1 && a.2 > b.2)))
}

/// Whether a text may stand before another, given what the comparison of
/// the two gave and whether the comparison can read the first.
pub open spec fn may_stand_before(compared: Option<bool>, reads: bool) -> bool {
    match compared {
        Some(holds) => holds,
        None => reads,
    }
}

/// Whether a tag is to stand before another, given how the two compare:
/// `forward` is the first against the second, `backward` the second against
/// the first, and the two flags say whether each can be read at all. A flag
/// counts only where the comparison on its side gave nothing.
pub fn stands_before_given(forward: Option<bool>, backward: Option<bool>, first_reads: bool, second_reads: bool) -> (r:
    bool)
    ensures
        r == (may_stand_before(forward, first_reads) && !may_stand_before(backward, second_reads)),
{
    let ahead = match forward {
        Some(holds) => holds,
        None => first_reads,
    };
    let behind = match backward {
        Some(holds) => holds,
        None => second_reads,
    };
    ahead && !behind
}

/// Whether what is compared of one tag is to stand before what is compared
/// of another.
fn text_before(a: &str, b: &str, operator: Operator) -> (r: bool)
    ensures
        r == (text_related(a@, b@, operator) && !text_related(b@, a@, operator)),
{
    let forward = compare_to(a, b, operator);
    let backward = compare_to(b, a, operator);
    let first_reads = match forward {
        Some(_) => true,
        None => match compare_to(a, a, operator) {
            Some(_) => true,
            None => false,
        },
    };
    let second_reads = match backward {
        Some(_) => true,
        None => match compare_to(b, b, operator) {
            Some(_) => true,
            None => false,
        },
    };
    stands_before_given(forward, backward, first_reads, second_reads)
}

/// The operator that an order asks of two texts.
pub fn operator(order: SortOrder) -> (r: Operator)
    ensures
        r == operator_of(order),
{
    match order {
        SortOrder::Ascending => Operator::Le,
        SortOrder::DescendingTags => Operator::Ge,
        SortOrder::DescendingMajors => Operator::Ge,
    }
}

/// Whether a tag of the major line `a` is to stand before one of the major
/// line `b`, where `None` says that a tag is no stable version: a higher
/// line stands before a lower, and a stable version before what is none.
pub fn major_before(a: Option<u64>, b: Option<u64>) -> (r: bool)
    ensures
        r == match (a, b) {
            (Some(x), Some(y)) => x > y,
            (Some(_), None) => true,
            _ => false,
        },
{
    match a {
        Some(x) => match b {
            Some(y) => x > y,
            None => true,
        },
        None => false,
    }
}

/// What an order compares of `tag`.
pub fn compared_text(tag: &str, order: SortOrder) -> (r: String)
    ensures
        r@ == compared(tag@, order),
{
    match order {
        SortOrder::Ascending => tag.to_owned(),
        SortOrder::DescendingMajors => tag.to_owned(),
        SortOrder::DescendingTags => {
            let chars = chars_of(tag);
            if chars.len() > 0 && chars[0] == 'v' {
                assert(chars@.skip(1) =~= chars@.subrange(1, chars@.len() as int));
                string_of(&chars, 1, chars.len())
            } else {
                tag.to_owned()
            }
        },
    }
}

/// Whether `a` is to stand before `b` in a list in `order`.
pub fn stands_before(a: &str, b: &str, order: SortOrder) -> (r: bool)
    ensures
        r == precedes(a@, b@, order),
{
    match order {
        SortOrder::DescendingMajors => major_before(stable_major_of(a), stable_major_of(b)),
        _ => {
            let x = compared_text(a, order);
            let y = compared_text(b, order);
            text_before(x.as_str(), y.as_str(), operator(order))
        },
    }
}

/// `list` in the descending order of the major lines.
fn sort_by_major(list: &Vec<String>) -> (sorted: Vec<String>)
    ensures
        texts(sorted@) == sorted_by(texts(list@), SortOrder::DescendingMajors),
{
    let mut sorted: Vec<String> = Vec::new();
    let mut keys: Vec<Option<u64>> = Vec::new();
    let mut i: usize = 0;
    while i < list.len()
        invariant
            i <= list@.len(),
            keys@.len() == sorted@.len(),
            forall|j: int|
                0 <= j < keys@.len() ==> match #[trigger] keys@[j] {
                    Some(major) => stable_major(sorted@[j]@) == Some(major as nat),
                    None => stable_major(sorted@[j]@) is None,
                },
            texts(sorted@) == sorted_by(texts(list@).take(i as int), SortOrder::DescendingMajors),
        decreases list@.len() - i,
    {
        let x = list[i].clone();
        let key = stable_major_of(x.as_str());
        let mut at: usize = sorted.len();
        while at > 0 && major_before(key, keys[at - 1])
            invariant
                at <= sorted@.len() == keys@.len(),
                match key {
                    Some(major) => stable_major(x@) == Some(major as nat),
                    None => stable_major(x@) is None,
                },
                forall|j: int|
                    0 <= j < keys@.len() ==> match #[trigger] keys@[j] {
                        Some(major) => stable_major(sorted@[j]@) == Some(major as nat),
                        None => stable_major(sorted@[j]@) is None,
                    },
                forall|j: int|
                    at <= j < sorted@.len() ==> precedes(
                        x@,
                        #[trigger] texts(sorted@)[j],
                        SortOrder::DescendingMajors,
                    ),
            decreases at,
        {
            at -= 1;
            assert(texts(sorted@)[at as int] == sorted@[at as int]@);
        }
        proof {
            let held = texts(sorted@);
            assert(at > 0 ==> held[at - 1] == sorted@[at - 1]@);
            lemma_inserted_at(held, x@, SortOrder::DescendingMajors, at as int);
            let longer = texts(list@).take(i + 1);
            assert(longer.drop_last() =~= texts(list@).take(i as int));
            assert(longer.last() == x@);
        }
        let ghost held = texts(sorted@);
        sorted.insert(at, x);
        keys.insert(at, key);
        assert(texts(sorted@) =~= held.insert(at as int, x@));
        i += 1;
    }
    assert(texts(list@).take(i as int) =~= texts(list@));
    sorted
}

/// `list` in `order`.
pub fn sort_versions(list: &Vec<String>, order: SortOrder) -> (sorted: Vec<String>)
    ensures
        texts(sorted@) == sorted_by(texts(list@), order),
{
    if let SortOrder::DescendingMajors = order {
        return sort_by_major(list);
    }
    let by = operator(order);
    let mut sorted: Vec<String> = Vec::new();
    let mut keys: Vec<String> = Vec::new();
    let mut i: usize = 0;
    while i < list.len()
        invariant
            i <= list@.len(),
            order != SortOrder::DescendingMajors,
            by == operator_of(order),
            keys@.len() == sorted@.len(),
            forall|j: int| 0 <= j < keys@.len() ==> (#[trigger] keys@[j])@ == compared(sorted@[j]@, order),
            texts(sorted@) == sorted_by(texts(list@).take(i as int), order),
        decreases list@.len() - i,
    {
        let x = list[i].clone();
        let key = compared_text(x.as_str(), order);
        let mut at: usize = sorted.len();
        while at > 0 && text_before(key.as_str(), keys[at - 1].as_str(), by)
            invariant
                at <= sorted@.len() == keys@.len(),
                order != SortOrder::DescendingMajors,
                by == operator_of(order),
                key@ == compared(x@, order),
                forall|j: int| 0 <= j < keys@.len() ==> (#[trigger] keys@[j])@ == compared(sorted@[j]@, order),
                forall|j: int| at <= j < sorted@.len() ==> precedes(x@, #[trigger] texts(sorted@)[j], order),
            decreases at,
        {
            at -= 1;
            assert(texts(sorted@)[at as int] == sorted@[at as int]@);
        }
        proof {
            let held = texts(sorted@);
            assert(at > 0 ==> held[at - 1] == sorted@[at - 1]@);
            lemma_inserted_at(held, x@, order, at as int);
            let longer = texts(list@).take(i + 1);
            assert(longer.drop_last() =~= texts(list@).take(i as int));
            assert(longer.last() == x@);
        }
        let ghost held = texts(sorted@);
        sorted.insert(at, x);
        keys.insert(at, key);
        assert(texts(sorted@) =~= held.insert(at as int, x@));
        i += 1;
    }
    assert(texts(list@).take(i as int) =~= texts(list@));
    sorted
}

/// Puts tags in descending order.
pub fn sort_desc(versions: &mut Vec<String>)
    ensures
        texts(final(versions)@) == sorted_by(texts(old(versions)@), SortOrder::DescendingTags),
{
    let sorted = sort_versions(versions, SortOrder::DescendingTags);
    *versions = sorted;
}

/// One tag for each major line among `versions`, newest first.
///
/// A leading `v` of a tag is left out wherever the tag is read, and stays
/// in what is returned. The tags are put in descending order. A tag counts
/// where it is a semantic version with no pre-release marker; the others
/// are passed over. Of each major line the highest tag that counts is kept,
/// by major, minor and patch, and of equals the first; what is kept is put
/// in the descending order of the major lines.
pub fn get_major_versions(versions: &Vec<String>) -> (majors: Vec<String>)
    ensures
        texts(majors@) == major_versions(texts(versions@)),
        one_per_major(texts(majors@)),
        forall|major: nat| has_major(texts(majors@), major) <==> has_major(texts(versions@), major),
        forall|i: int| 0 <= i < majors@.len() ==> texts(versions@).contains(#[trigger] texts(majors@)[i]),
        serves_all(texts(majors@), texts(versions@)),
        majors_descend(texts(majors@)),
{
    let sorted = sort_versions(versions, SortOrder::DescendingTags);
    let mut lines: HashMap<u64, usize> = HashMap::new();
    let mut majors: Vec<String> = Vec::new();
    let mut kept: Vec<(u64, u64, u64)> = Vec::new();
    let mut i: usize = 0;
    while i < sorted.len()
        invariant
            i <= sorted@.len(),
            texts(majors@) == representatives(texts(sorted@).take(i as int)),
            kept@.len() == majors@.len(),
            forall|j: int|
                0 <= j < kept@.len() ==> stable_version(#[trigger] texts(majors@)[j]) == Some(
                    (kept@[j].0 as nat, kept@[j].1 as nat, kept@[j].2 as nat),
                ),
            forall|major: u64| lines@.contains_key(major) <==> has_major(texts(majors@), major as nat),
            forall|major: u64|
                lines@.contains_key(major) ==> (#[trigger] lines@[major]) < majors@.len() && stable_major(
                    texts(majors@)[lines@[major] as int],
                ) == Some(major as nat),
        decreases sorted@.len() - i,
    {
        let ghost held = texts(majors@);
        let ghost tag = sorted@[i as int]@;
        proof {
            let longer = texts(sorted@).take(i + 1);
            assert(longer.drop_last() =~= texts(sorted@).take(i as int));
            assert(longer.last() == tag);
            lemma_representatives(texts(sorted@).take(i as int));
        }
        match stable_version_of(sorted[i].as_str()) {
            Some(numbers) => {
                let found = match lines.get(&numbers.0) {
                    Some(at) => Some(*at),
                    None => None,
                };
                match found {
                    Some(at) => {
                        proof {
                            lemma_line_of(held, numbers.0 as nat, at as int);
                        }
                        if is_higher(numbers, kept[at]) {
                            majors[at] = sorted[i].clone();
                            kept[at] = numbers;
                            proof {
                                assert(texts(majors@) =~= held.update(at as int, tag));
                                lemma_update_one_per_major(held, at as int, tag);
                                assert forall|major: u64| lines@.contains_key(major) implies stable_major(
                                    texts(majors@)[(#[trigger] lines@[major]) as int],
                                ) == Some(major as nat) by {
                                    if lines@[major] != at {
                                        assert(texts(majors@)[lines@[major] as int] == held[lines@[major] as int]);
                                    }
                                }
                            }
                        }
                    },
                    None => {
                        lines.insert(numbers.0, majors.len());
                        majors.push(sorted[i].clone());
                        kept.push(numbers);
                        proof {
                            assert(texts(majors@) =~= held.push(tag));
                            lemma_insert_one_per_major(held, held.len() as int, tag);
                            assert(held.insert(held.len() as int, tag) =~= held.push(tag));
                            assert forall|major: u64| lines@.contains_key(major) implies stable_major(
                                texts(majors@)[(#[trigger] lines@[major]) as int],
                            ) == Some(major as nat) by {
                                if major != numbers.0 {
                                    assert(texts(majors@)[lines@[major] as int] == held[lines@[major] as int]);
                                }
                            }
                        }
                    },
                }
            },
            None => {},
        }
        i += 1;
    }
    proof {
        assert(texts(sorted@).take(i as int) =~= texts(sorted@));
        lemma_major_versions(texts(versions@));
    }
    sort_versions(&majors, SortOrder::DescendingMajors)
}

} // verus!

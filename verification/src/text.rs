//! Character sequences: the view of every string the crate handles.

use vstd::prelude::*;

verus! {

broadcast use vstd::string::group_string_axioms;

/// `String::push` of std appends one character to the string.
pub assume_specification[ String::push ](s: &mut String, c: char)
    ensures
        final(s)@ == old(s)@.push(c),
;

/// `str`'s `==` of std holds exactly of slices with the same characters.
pub assume_specification[ <str as PartialEq>::eq ](a: &str, b: &str) -> (r: bool)
    ensures
        r == (a@ == b@),
;

/// The texts that a list of strings holds.
pub open spec fn texts(list: Seq<String>) -> Seq<Seq<char>> {
    list.map_values(|s: String| s@)
}

/// The texts that a list of character vectors holds.
pub open spec fn pieces_view(list: Seq<Vec<char>>) -> Seq<Seq<char>> {
    list.map_values(|p: Vec<char>| p@)
}

/// One of the ten ASCII digits.
pub open spec fn is_digit(c: char) -> bool {
    '0' <= c <= '9'
}

/// A letter of the ASCII alphabet or an underscore.
pub open spec fn is_name_char(c: char) -> bool {
    ('a' <= c <= 'z') || ('A' <= c <= 'Z') || c == '_'
}

/// The pieces of `s` between occurrences of `sep`. There is always at least
/// one piece; an empty text has one empty piece.
pub open spec fn split_on(s: Seq<char>, sep: char) -> Seq<Seq<char>>
    decreases s.len(),
{
    if s.len() == 0 {
        seq![Seq::<char>::empty()]
    } else {
        let init = split_on(s.drop_last(), sep);
        if s.last() == sep {
            init.push(Seq::<char>::empty())
        } else {
            init.update(init.len() - 1, init.last().push(s.last()))
        }
    }
}

/// `pieces` joined with `sep` between neighbours.
pub open spec fn join_with(pieces: Seq<Seq<char>>, sep: char) -> Seq<char>
    decreases pieces.len(),
{
    if pieces.len() == 0 {
        Seq::<char>::empty()
    } else if pieces.len() == 1 {
        pieces[0]
    } else {
        join_with(pieces.drop_last(), sep).push(sep) + pieces.last()
    }
}

/// Splitting loses nothing: the pieces hold no separator, and joined again
/// they give the text back.
pub proof fn lemma_split_on(s: Seq<char>, sep: char)
    ensures
        split_on(s, sep).len() >= 1,
        forall|i: int| 0 <= i < split_on(s, sep).len() ==> !(#[trigger] split_on(s, sep)[i]).contains(sep),
        join_with(split_on(s, sep), sep) == s,
    decreases s.len(),
{
    if s.len() == 0 {
        assert(join_with(split_on(s, sep), sep) =~= s);
    } else {
        let init = split_on(s.drop_last(), sep);
        lemma_split_on(s.drop_last(), sep);
        let all = split_on(s, sep);
        if s.last() == sep {
            assert(all.drop_last() =~= init);
            assert(join_with(all, sep) =~= s);
        } else {
            let last = init.last().push(s.last());
            assert forall|i: int| 0 <= i < all.len() implies !(#[trigger] all[i]).contains(sep) by {
                if i == all.len() - 1 {
                    assert(!init.last().contains(sep));
                    if last.contains(sep) {
                        let k = choose|k: int| 0 <= k < last.len() && last[k] == sep;
                        assert(init.last()[k] == sep);
                    }
                } else {
                    assert(all[i] == init[i]);
                }
            }
            assert(s.drop_last().push(s.last()) =~= s);
            if init.len() == 1 {
                assert(join_with(all, sep) =~= s);
            } else {
                assert(all.drop_last() =~= init.drop_last());
                let head = join_with(init.drop_last(), sep).push(sep);
                assert(head + last =~= (head + init.last()).push(s.last()));
                assert(join_with(all, sep) =~= s);
            }
        }
    }
}

/// A text that holds no separator is its own single piece.
pub proof fn lemma_split_whole(s: Seq<char>, sep: char)
    requires
        !s.contains(sep),
    ensures
        split_on(s, sep) == seq![s],
    decreases s.len(),
{
    if s.len() == 0 {
        assert(s =~= Seq::<char>::empty());
    } else {
        assert(!s.drop_last().contains(sep)) by {
            if s.drop_last().contains(sep) {
                let k = choose|k: int| 0 <= k < s.drop_last().len() && s.drop_last()[k] == sep;
                assert(s[k] == sep);
            }
        }
        lemma_split_whole(s.drop_last(), sep);
        assert(s[s.len() - 1] != sep);
        assert(s.drop_last().push(s.last()) =~= s);
        assert(split_on(s, sep) =~= seq![s]);
    }
}

/// The pieces of two texts with a separator between them are the pieces
/// of the first and then the pieces of the second.
pub proof fn lemma_split_joined(a: Seq<char>, b: Seq<char>, sep: char)
    ensures
        split_on(a.push(sep) + b, sep) == split_on(a, sep) + split_on(b, sep),
    decreases b.len(),
{
    let whole = a.push(sep) + b;
    lemma_split_on(a, sep);
    if b.len() == 0 {
        assert(whole =~= a.push(sep));
        assert(whole.drop_last() =~= a);
        assert(split_on(whole, sep) =~= split_on(a, sep) + split_on(b, sep));
    } else {
        lemma_split_joined(a, b.drop_last(), sep);
        lemma_split_on(b.drop_last(), sep);
        assert(whole.drop_last() =~= a.push(sep) + b.drop_last());
        assert(whole.last() == b.last());
        assert(split_on(whole, sep) =~= split_on(a, sep) + split_on(b, sep));
    }
}

/// Whether `c` is a decimal digit.
pub(crate) fn digit(c: char) -> (r: bool)
    ensures
        r == is_digit(c),
{
    '0' <= c && c <= '9'
}

/// Whether `c` may stand in a field name or a label.
pub(crate) fn name_char(c: char) -> (r: bool)
    ensures
        r == is_name_char(c),
{
    ('a' <= c && c <= 'z') || ('A' <= c && c <= 'Z') || c == '_'
}

/// The characters of `s`, in order.
pub(crate) fn chars_of(s: &str) -> (v: Vec<char>)
    ensures
        v@ == s@,
{
    let mut v: Vec<char> = Vec::new();
    for c in it: s.chars()
        invariant
            it.seq() == s@,
            v@ == it.seq().take(it.index() as int),
    {
        v.push(c);
    }
    v
}

/// The string made of `chars[from..to]`.
pub(crate) fn string_of(chars: &Vec<char>, from: usize, to: usize) -> (s: String)
    requires
        from <= to <= chars@.len(),
    ensures
        s@ == chars@.subrange(from as int, to as int),
{
    let mut s = String::new();
    let mut i: usize = from;
    while i < to
        invariant
            from <= i <= to <= chars@.len(),
            s@ == chars@.subrange(from as int, i as int),
        decreases to - i,
    {
        s.push(chars[i]);
        i += 1;
    }
    s
}

/// Cuts `chars` at every `sep`.
pub(crate) fn split(chars: &Vec<char>, sep: char) -> (pieces: Vec<Vec<char>>)
    ensures
        pieces_view(pieces@) == split_on(chars@, sep),
{
    let mut pieces: Vec<Vec<char>> = Vec::new();
    let mut current: Vec<char> = Vec::new();
    let mut i: usize = 0;
    while i < chars.len()
        invariant
            i <= chars@.len(),
            pieces_view(pieces@).push(current@) == split_on(chars@.take(i as int), sep),
        decreases chars@.len() - i,
    {
        let c = chars[i];
        proof {
            assert(chars@.take(i + 1).drop_last() =~= chars@.take(i as int));
            assert(chars@.take(i + 1).last() == c);
        }
        if c == sep {
            let ghost before = pieces_view(pieces@);
            pieces.push(current);
            assert(pieces_view(pieces@) =~= before.push(current@));
            current = Vec::new();
        } else {
            let ghost before = pieces_view(pieces@).push(current@);
            current.push(c);
            assert(pieces_view(pieces@).push(current@) =~= before.update(
                before.len() - 1,
                before.last().push(c),
            ));
        }
        i += 1;
    }
    proof {
        assert(chars@.take(i as int) =~= chars@);
    }
    let ghost before = pieces_view(pieces@);
    pieces.push(current);
    assert(pieces_view(pieces@) =~= before.push(current@));
    pieces
}

/// Whether `pattern` stands in `s` at position `at`.
pub open spec fn occurs_at(s: Seq<char>, pattern: Seq<char>, at: int) -> bool {
    0 <= at && at + pattern.len() <= s.len() && s.subrange(at, at + pattern.len()) == pattern
}

/// Whether `at` is the leftmost position at which `pattern` stands in `s`.
pub open spec fn is_first_occurrence(s: Seq<char>, pattern: Seq<char>, at: int) -> bool {
    occurs_at(s, pattern, at) && forall|j: int| 0 <= j < at ==> !occurs_at(s, pattern, j)
}

/// `s` with its leftmost occurrence of `pattern` replaced by `with`; `s`
/// itself where `pattern` does not occur.
pub open spec fn replace_first(s: Seq<char>, pattern: Seq<char>, with: Seq<char>) -> Seq<char> {
    if exists|at: int| is_first_occurrence(s, pattern, at) {
        let at = choose|at: int| is_first_occurrence(s, pattern, at);
        s.take(at) + with + s.skip(at + pattern.len())
    } else {
        s
    }
}

/// Whether `pattern` stands somewhere in `s`.
pub open spec fn holds(s: Seq<char>, pattern: Seq<char>) -> bool {
    exists|at: int| occurs_at(s, pattern, at)
}

/// Whether `c` is none of the characters of `s`.
pub open spec fn free_of(s: Seq<char>, c: char) -> bool
    decreases s.len(),
{
    s.len() == 0 || (s.last() != c && free_of(s.drop_last(), c))
}

/// A text that is free of a character holds it nowhere.
pub proof fn lemma_free_of(s: Seq<char>, c: char)
    requires
        free_of(s, c),
    ensures
        forall|i: int| 0 <= i < s.len() ==> s[i] != c,
    decreases s.len(),
{
    if s.len() > 0 {
        lemma_free_of(s.drop_last(), c);
        assert forall|i: int| 0 <= i < s.len() implies s[i] != c by {
            if i < s.len() - 1 {
                assert(s.drop_last()[i] == s[i]);
            }
        }
    }
}

/// Replacing the first occurrence, where it is known: what stands before
/// it, the replacement, and what stands behind it.
pub proof fn lemma_replace_first_at(s: Seq<char>, pattern: Seq<char>, with: Seq<char>, at: int)
    requires
        is_first_occurrence(s, pattern, at),
    ensures
        replace_first(s, pattern, with) == s.take(at) + with + s.skip(at + pattern.len()),
{
    let chosen = choose|k: int| is_first_occurrence(s, pattern, k);
    assert(is_first_occurrence(s, pattern, chosen));
    assert(chosen == at);
}

/// A pattern does not reach across a joint: where it stands neither in `a`
/// nor in `b`, where the text between them begins with a character that
/// the pattern lacks, and holds nowhere the character that the pattern
/// begins with, the pattern does not stand in the three put together.
pub proof fn lemma_no_occurrence_joined(a: Seq<char>, between: Seq<char>, b: Seq<char>, pattern: Seq<char>)
    requires
        !holds(a, pattern),
        !holds(b, pattern),
        pattern.len() > 0,
        between.len() > 0,
        free_of(pattern, between[0]),
        free_of(between, pattern[0]),
    ensures
        !holds(a + between + b, pattern),
{
    let s = a + between + b;
    lemma_free_of(pattern, between[0]);
    lemma_free_of(between, pattern[0]);
    assert forall|at: int| !occurs_at(s, pattern, at) by {
        if occurs_at(s, pattern, at) {
            let found = s.subrange(at, at + pattern.len());
            if at < a.len() {
                if at + pattern.len() <= a.len() {
                    assert(a.subrange(at, at + pattern.len()) =~= found);
                    assert(occurs_at(a, pattern, at));
                } else {
                    assert(found[a.len() - at] == between[0]);
                }
            } else if at < a.len() + between.len() {
                assert(found[0] == between[at - a.len()]);
            } else {
                let inner = at - a.len() - between.len();
                assert(b.subrange(inner, inner + pattern.len()) =~= found);
                assert(occurs_at(b, pattern, inner));
            }
        }
    }
}

/// Where a pattern stands behind `a` and the text `between`, and nowhere
/// before, replacing its first occurrence replaces that one.
pub proof fn lemma_replace_first_behind(
    a: Seq<char>,
    between: Seq<char>,
    pattern: Seq<char>,
    rest: Seq<char>,
    with: Seq<char>,
)
    requires
        !holds(a, pattern),
        pattern.len() > 0,
        between.len() > 0,
        free_of(pattern, between[0]),
        free_of(between, pattern[0]),
    ensures
        replace_first(a + between + pattern + rest, pattern, with) == a + between + with + rest,
{
    let s = a + between + pattern + rest;
    let at = (a.len() + between.len()) as int;
    lemma_free_of(pattern, between[0]);
    lemma_free_of(between, pattern[0]);
    assert(s.subrange(at, at + pattern.len()) =~= pattern);
    assert forall|j: int| 0 <= j < at implies !occurs_at(s, pattern, j) by {
        if occurs_at(s, pattern, j) {
            let found = s.subrange(j, j + pattern.len());
            if j < a.len() {
                if j + pattern.len() <= a.len() {
                    assert(a.subrange(j, j + pattern.len()) =~= found);
                    assert(occurs_at(a, pattern, j));
                } else {
                    assert(found[a.len() - j] == between[0]);
                }
            } else {
                assert(found[0] == between[j - a.len()]);
            }
        }
    }
    lemma_replace_first_at(s, pattern, with, at);
    assert(s.take(at) =~= a + between);
    assert(s.skip(at + pattern.len()) =~= rest);
}

/// The items of `s` without repetitions, each where it first stands.
pub open spec fn distinct(s: Seq<Seq<char>>) -> Seq<Seq<char>>
    decreases s.len(),
{
    if s.len() == 0 {
        Seq::<Seq<char>>::empty()
    } else {
        let init = distinct(s.drop_last());
        if init.contains(s.last()) {
            init
        } else {
            init.push(s.last())
        }
    }
}

/// `distinct` keeps exactly the items of `s`, each once.
pub proof fn lemma_distinct(s: Seq<Seq<char>>)
    ensures
        distinct(s).no_duplicates(),
        distinct(s).len() <= s.len(),
        forall|x: Seq<char>| distinct(s).contains(x) <==> s.contains(x),
    decreases s.len(),
{
    if s.len() > 0 {
        let front = s.drop_last();
        let init = distinct(front);
        let all = distinct(s);
        lemma_distinct(front);
        assert(s =~= front.push(s.last()));
        assert forall|x: Seq<char>| s.contains(x) <==> front.contains(x) || x == s.last() by {
            if s.contains(x) {
                let k = choose|k: int| 0 <= k < s.len() && s[k] == x;
                if k < front.len() {
                    assert(front[k] == x);
                }
            }
            if front.contains(x) {
                let k = choose|k: int| 0 <= k < front.len() && front[k] == x;
                assert(s[k] == x);
            }
            if x == s.last() {
                assert(s[s.len() - 1] == x);
            }
        }
        if init.contains(s.last()) {
            assert(all == init);
        } else {
            assert(all == init.push(s.last()));
            assert forall|x: Seq<char>| all.contains(x) <==> init.contains(x) || x == s.last() by {
                if all.contains(x) {
                    let k = choose|k: int| 0 <= k < all.len() && all[k] == x;
                    if k < init.len() {
                        assert(init[k] == x);
                    }
                }
                if init.contains(x) {
                    let k = choose|k: int| 0 <= k < init.len() && init[k] == x;
                    assert(all[k] == x);
                }
                if x == s.last() {
                    assert(all[all.len() - 1] == x);
                }
            }
            assert forall|i: int, j: int| 0 <= i < all.len() && 0 <= j < all.len() && i != j implies all[i] != all[j] by {
                if i == init.len() {
                    assert(init[j] == all[j]);
                } else if j == init.len() {
                    assert(init[i] == all[i]);
                }
            }
        }
    }
}

/// Whether `pattern` stands in `s` at position `at`.
pub(crate) fn matches_at(s: &Vec<char>, pattern: &Vec<char>, at: usize) -> (r: bool)
    ensures
        r == occurs_at(s@, pattern@, at as int),
{
    if pattern.len() > s.len() || at > s.len() - pattern.len() {
        return false;
    }
    let mut k: usize = 0;
    while k < pattern.len()
        invariant
            k <= pattern@.len(),
            at + pattern@.len() <= s@.len() <= usize::MAX,
            forall|j: int| 0 <= j < k ==> s@[at + j] == pattern@[j],
        decreases pattern@.len() - k,
    {
        if s[at + k] != pattern[k] {
            assert(s@.subrange(at as int, at + pattern@.len())[k as int] != pattern@[k as int]);
            return false;
        }
        k += 1;
    }
    assert(s@.subrange(at as int, at + pattern@.len()) =~= pattern@);
    true
}

/// `s` with the first `pattern` in it replaced by `with`.
pub fn replace_first_in(s: &str, pattern: &str, with: &str) -> (r: String)
    ensures
        r@ == replace_first(s@, pattern@, with@),
{
    let chars = chars_of(s);
    let wanted = chars_of(pattern);
    let n = chars.len();
    let mut at: usize = 0;
    loop
        invariant
            at <= chars@.len() == n,
            chars@ == s@,
            wanted@ == pattern@,
            forall|j: int| 0 <= j < at ==> !occurs_at(chars@, wanted@, j),
        decreases chars@.len() - at,
    {
        if matches_at(&chars, &wanted, at) {
            let mut out = string_of(&chars, 0, at);
            out.append(with);
            let tail = string_of(&chars, at + wanted.len(), n);
            out.append(tail.as_str());
            proof {
                assert(is_first_occurrence(s@, pattern@, at as int));
                let chosen = choose|k: int| is_first_occurrence(s@, pattern@, k);
                assert(chosen == at);
                assert(s@.take(at as int) =~= s@.subrange(0, at as int));
                assert(s@.skip(at + pattern@.len()) =~= s@.subrange(at + wanted@.len(), s@.len() as int));
            }
            return out;
        }
        if at == n {
            proof {
                assert forall|k: int| !is_first_occurrence(s@, pattern@, k) by {
                    if occurs_at(s@, pattern@, k) {
                        assert(k <= at);
                    }
                }
            }
            return s.to_owned();
        }
        at += 1;
    }
}

/// Whether one of `list` is the text `wanted`.
pub(crate) fn contains_text(list: &Vec<String>, wanted: &str) -> (r: bool)
    ensures
        r == texts(list@).contains(wanted@),
{
    let mut i: usize = 0;
    while i < list.len()
        invariant
            i <= list@.len(),
            forall|j: int| 0 <= j < i ==> texts(list@)[j] != wanted@,
        decreases list@.len() - i,
    {
        if list[i].as_str().eq(wanted) {
            assert(texts(list@)[i as int] == wanted@);
            return true;
        }
        i += 1;
    }
    false
}

} // verus!

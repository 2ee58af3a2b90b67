//! Which properties may have to do with each other, by their names.
//!
//! Whether two properties conflict is known from their keys and longhands. That
//! says nothing of the same property under another prefix or an older name, nor
//! of a logical property and the physical one that it stands for. What is moved
//! across other declarations must have nothing to do with them at all.
use crate::declaration::conflict;
use crate::declaration::properties_conflict;
use crate::declaration::PropertyId;
use crate::declaration::PropertyIdView;
use vstd::prelude::*;

verus! {

/// The parts of the first `count` characters of a name, which hyphens separate.
pub open spec fn words_of(name: Seq<char>, count: nat) -> Seq<Seq<char>>
    decreases count,
{
    if count == 0 {
        seq![seq![]]
    } else {
        let before = words_of(name, (count - 1) as nat);
        if name[count - 1] == '-' {
            before.push(seq![])
        } else {
            before.drop_last().push(before.last().push(name[count - 1]))
        }
    }
}

/// The parts of a name, which hyphens separate.
pub open spec fn words(name: Seq<char>) -> Seq<Seq<char>> {
    words_of(name, name.len())
}

/// Whether the names have a part in common that is not empty.
pub open spec fn share_word(a: Seq<char>, b: Seq<char>) -> bool {
    exists|i: int, j: int|
        0 <= i < words(a).len() && 0 <= j < words(b).len() && (#[trigger] words(a)[i]).len() > 0
            && words(a)[i] == #[trigger] words(b)[j]
}

/// Whether the name may be that of a logical property: a part of it speaks of an
/// axis or a side that depends on the writing mode.
pub open spec fn may_be_logical(name: Seq<char>) -> bool {
    ||| share_word(name, "inline"@)
    ||| share_word(name, "block"@)
    ||| share_word(name, "start"@)
    ||| share_word(name, "end"@)
    ||| share_word(name, "before"@)
    ||| share_word(name, "after"@)
    ||| share_word(name, "logical"@)
}

/// Whether declarations of the two properties may have to do with each other:
/// they conflict, they have the same name or names with a part in common, or one
/// may be a logical property.
pub open spec fn related(a: PropertyIdView, b: PropertyIdView) -> bool {
    ||| conflict(a, b)
    ||| a.key.0 == b.key.0
    ||| share_word(a.key.0, b.key.0)
    ||| may_be_logical(a.key.0)
    ||| may_be_logical(b.key.0)
}

/// The models of some words.
pub open spec fn word_views(list: Seq<Vec<char>>) -> Seq<Seq<char>> {
    Seq::new(list.len(), |i: int| list[i]@)
}

/// The parts of a name: see [`words`].
pub fn split_words(name: &String) -> (list: Vec<Vec<char>>)
    ensures
        word_views(list@) == words(name@),
{
    let text = name.as_str();
    let mut list: Vec<Vec<char>> = Vec::new();
    let mut word: Vec<char> = Vec::new();
    let count: usize = text.unicode_len();
    let mut i: usize = 0;
    assert(word_views(list@).push(word@) =~= words_of(name@, 0));
    while i < count
        invariant
            i <= count,
            count == text@.len(),
            text@ == name@,
            word_views(list@).push(word@) == words_of(name@, i as nat),
        decreases count - i,
    {
        let ghost before = word_views(list@).push(word@);
        let c = text.get_char(i);
        if c == '-' {
            let ghost old_list = list@;
            let ghost old_word = word@;
            list.push(word);
            word = Vec::new();
            assert(word_views(list@) =~= word_views(old_list).push(old_word));
            assert(word_views(list@).push(word@) =~= before.push(seq![]));
        } else {
            word.push(c);
            assert(before.drop_last() =~= word_views(list@));
        }
        i = i + 1;
    }
    let ghost old_list = list@;
    let ghost old_word = word@;
    list.push(word);
    assert(word_views(list@) =~= word_views(old_list).push(old_word));
    list
}

/// Whether the words are the same.
fn same_word(a: &Vec<char>, b: &Vec<char>) -> (same: bool)
    ensures
        same == (a@ == b@),
{
    if a.len() != b.len() {
        return false;
    }
    let mut i: usize = 0;
    while i < a.len()
        invariant
            i <= a.len(),
            a.len() == b.len(),
            forall|j: int| 0 <= j < i ==> a@[j] == b@[j],
        decreases a.len() - i,
    {
        if a[i] != b[i] {
            return false;
        }
        i = i + 1;
    }
    assert(a@ =~= b@);
    true
}

/// Whether the names have a part in common: see [`share_word`].
pub fn names_share_word(a: &String, b: &String) -> (shared: bool)
    ensures
        shared == share_word(a@, b@),
{
    let first = split_words(a);
    let second = split_words(b);
    let ghost ones = words(a@);
    let ghost others = words(b@);
    let mut i: usize = 0;
    while i < first.len()
        invariant
            i <= first.len(),
            ones == words(a@),
            others == words(b@),
            word_views(first@) == ones,
            word_views(second@) == others,
            forall|k: int, j: int|
                0 <= k < i && 0 <= j < others.len() && (#[trigger] ones[k]).len() > 0 ==> ones[k]
                    != #[trigger] others[j],
        decreases first.len() - i,
    {
        assert(ones[i as int] == first@[i as int]@);
        if !first[i].is_empty() {
            let mut j: usize = 0;
            while j < second.len()
                invariant
                    j <= second.len(),
                    i < first.len(),
                    ones == words(a@),
                    others == words(b@),
                    word_views(second@) == others,
                    i < ones.len(),
                    ones[i as int] == first@[i as int]@,
                    ones[i as int].len() > 0,
                    forall|k: int| 0 <= k < j ==> ones[i as int] != #[trigger] others[k],
                decreases second.len() - j,
            {
                assert(others[j as int] == second@[j as int]@);
                if same_word(&first[i], &second[j]) {
                    return true;
                }
                j = j + 1;
            }
        }
        i = i + 1;
    }
    false
}

/// Whether the name may be that of a logical property: see [`may_be_logical`].
pub fn name_may_be_logical(name: &String) -> (answer: bool)
    ensures
        answer == may_be_logical(name@),
{
    names_share_word(name, &"inline".to_owned()) || names_share_word(name, &"block".to_owned())
        || names_share_word(name, &"start".to_owned()) || names_share_word(
        name,
        &"end".to_owned(),
    ) || names_share_word(name, &"before".to_owned()) || names_share_word(
        name,
        &"after".to_owned(),
    ) || names_share_word(name, &"logical".to_owned())
}

/// Whether declarations of the two properties may have to do with each other:
/// see [`related`].
pub fn properties_related(a: &PropertyId, b: &PropertyId) -> (answer: bool)
    ensures
        answer == related(a@, b@),
{
    properties_conflict(a, b) || a.name == b.name || names_share_word(&a.name, &b.name)
        || name_may_be_logical(&a.name) || name_may_be_logical(&b.name)
}

} // verus!

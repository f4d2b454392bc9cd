//! Lists of paths, and the parts of a file name. Two paths are the same where
//! their texts are: whoever hands over a path spells it without doubled
//! separators and without `.` components.

use vstd::hash_set::StringHashSet;
use vstd::prelude::*;
use vstd::string::*;

verus! {

/// The texts of a list of paths.
pub open spec fn names(paths: Seq<String>) -> Seq<Seq<char>> {
    paths.map_values(|p: String| p@)
}

/// `b` holds the items of `a`, each as often, in some order.
pub open spec fn rearranged(a: Seq<Seq<char>>, b: Seq<Seq<char>>) -> bool {
    a.to_multiset() == b.to_multiset()
}

pub proof fn lemma_names_push(paths: Seq<String>, path: String)
    ensures
        names(paths.push(path)) == names(paths).push(path@),
{
    assert(names(paths.push(path)) =~= names(paths).push(path@));
}

pub proof fn lemma_names_remove(paths: Seq<String>, i: int)
    requires
        0 <= i < paths.len(),
    ensures
        names(paths.remove(i)) == names(paths).remove(i),
{
    assert(names(paths.remove(i)) =~= names(paths).remove(i));
}

/// A rearrangement of a list without repeats has no repeats, the same length
/// and the same members.
pub proof fn lemma_rearranged(a: Seq<Seq<char>>, b: Seq<Seq<char>>)
    requires
        rearranged(a, b),
    ensures
        a.len() == b.len(),
        forall|p: Seq<char>| a.contains(p) <==> #[trigger] b.contains(p),
        a.no_duplicates() ==> b.no_duplicates(),
{
    a.to_multiset_ensures();
    b.to_multiset_ensures();
    assert forall|p: Seq<char>| a.contains(p) <==> #[trigger] b.contains(p) by {
        assert(a.to_multiset().count(p) == b.to_multiset().count(p));
    }
    if a.no_duplicates() {
        a.lemma_multiset_has_no_duplicates();
        b.lemma_multiset_has_no_duplicates_conv();
    }
}

/// Exchanging two items is a rearrangement.
pub proof fn lemma_exchange(s: Seq<Seq<char>>, i: int, j: int)
    requires
        0 <= i < j < s.len(),
    ensures
        rearranged(s, s.update(i, s[j]).update(j, s[i])),
{
    let t = s.update(i, s[j]).update(j, s[i]);
    let rest = s.remove(j).remove(i);
    assert(t.remove(j).remove(i) =~= rest);
    s.to_multiset_ensures();
    t.to_multiset_ensures();
    s.remove(j).to_multiset_ensures();
    t.remove(j).to_multiset_ensures();
    let m = rest.to_multiset();
    assert(s.contains(s[i]) && s.contains(s[j]) && t.contains(t[i]) && t.contains(t[j]));
    assert(s.remove(j)[i] == s[i] && t.remove(j)[i] == s[j]);
    assert(s.remove(j).contains(s[i]) && t.remove(j).contains(s[j]));
    assert(s.to_multiset() =~= m.insert(s[i]).insert(s[j]));
    assert(t.to_multiset() =~= m.insert(s[j]).insert(s[i]));
    assert(m.insert(s[i]).insert(s[j]) =~= m.insert(s[j]).insert(s[i]));
}

/// The first place of `path` in `paths`.
pub fn position_of(paths: &Vec<String>, path: &String) -> (place: Option<usize>)
    ensures
        match place {
            Some(i) => names(paths@).index_of_first(path@) == Some(i as int) && i < paths.len(),
            None => !names(paths@).contains(path@),
        },
{
    let mut i: usize = 0;
    while i < paths.len()
        invariant
            i <= paths.len(),
            forall|j: int| 0 <= j < i ==> #[trigger] names(paths@)[j] != path@,
        decreases paths.len() - i,
    {
        if paths[i] == *path {
            proof {
                names(paths@).index_of_first_ensures(path@);
                assert(names(paths@)[i as int] == path@);
            }
            return Some(i);
        }
        i = i + 1;
    }
    None
}

/// Whether `path` is in `paths`.
pub fn has_path(paths: &Vec<String>, path: &String) -> (found: bool)
    ensures
        found == names(paths@).contains(path@),
{
    proof {
        names(paths@).index_of_first_ensures(path@);
    }
    position_of(paths, path).is_some()
}

/// Takes the first occurrence of `path` out of `paths`, and says whether there
/// was one.
pub fn remove_first(paths: &mut Vec<String>, path: &String) -> (removed: bool)
    ensures
        names(final(paths)@) == names(old(paths)@).remove_value(path@),
        removed == names(old(paths)@).contains(path@),
{
    proof {
        names(paths@).index_of_first_ensures(path@);
    }
    match position_of(paths, path) {
        Some(i) => {
            proof {
                lemma_names_remove(paths@, i as int);
            }
            paths.remove(i);
            true
        },
        None => false,
    }
}

/// The paths as a set.
pub fn path_set(paths: &Vec<String>) -> (set: StringHashSet)
    ensures
        set@ == names(paths@).to_set(),
{
    let mut set = StringHashSet::new();
    let mut i: usize = 0;
    assert(set@ =~= names(paths@).take(0).to_set());
    while i < paths.len()
        invariant
            i <= paths.len(),
            set@ == names(paths@).take(i as int).to_set(),
        decreases paths.len() - i,
    {
        set.insert(paths[i].clone());
        proof {
            lemma_take_next(names(paths@), i as int);
        }
        i = i + 1;
    }
    assert(names(paths@).take(i as int) =~= names(paths@));
    set
}

/// The place of the last `.` of a file name, or -1.
pub open spec fn last_dot(name: Seq<char>) -> int
    decreases name.len(),
{
    if name.len() == 0 {
        -1
    } else if name.last() == '.' {
        name.len() - 1
    } else {
        last_dot(name.drop_last())
    }
}

/// What follows the last `.` of a file name, where that is not its first
/// character.
pub open spec fn extension_of(name: Seq<char>) -> Option<Seq<char>> {
    let dot = last_dot(name);
    if dot <= 0 {
        None
    } else {
        Some(name.skip(dot + 1))
    }
}

/// What stands before the extension of a file name and its `.`.
pub open spec fn stem_of(name: Seq<char>) -> Seq<char> {
    let dot = last_dot(name);
    if dot <= 0 {
        name
    } else {
        name.take(dot)
    }
}

proof fn lemma_last_dot(name: Seq<char>)
    ensures
        -1 <= last_dot(name) < name.len(),
        last_dot(name) >= 0 ==> name[last_dot(name)] == '.',
        forall|i: int| last_dot(name) < i < name.len() ==> #[trigger] name[i] != '.',
    decreases name.len(),
{
    if name.len() > 0 && name.last() != '.' {
        lemma_last_dot(name.drop_last());
        assert forall|i: int| last_dot(name) < i < name.len() implies #[trigger] name[i] != '.' by {
            if i < name.len() - 1 {
                assert(name.drop_last()[i] != '.');
            }
        }
    }
}

/// The stem, a `.` and the extension make up the file name again, and the
/// extension holds no `.`.
pub proof fn law_stem_and_extension(name: Seq<char>)
    ensures
        match extension_of(name) {
            Some(extension) => name == stem_of(name) + seq!['.'] + extension
                && !extension.contains('.'),
            None => name == stem_of(name),
        },
{
    lemma_last_dot(name);
    let dot = last_dot(name);
    if dot > 0 {
        assert(name =~= name.take(dot) + seq!['.'] + name.skip(dot + 1));
    }
}

/// The characters of a text.
pub fn chars_of(text: &str) -> (chars: Vec<char>)
    ensures
        chars@ == text@,
{
    let mut chars: Vec<char> = Vec::new();
    for c in it: text.chars()
        invariant
            it.seq() == text@,
            chars@ == it.seq().take(it.index()),
    {
        chars.push(c);
    }
    chars
}

/// The place of the last `.` among the first `end` characters from `start` on.
pub fn find_last_dot(chars: &Vec<char>, start: usize, end: usize) -> (dot: Option<usize>)
    requires
        start <= end <= chars.len(),
    ensures
        match dot {
            Some(d) => start <= d < end && last_dot(
                chars@.subrange(start as int, end as int),
            ) == d - start,
            None => last_dot(chars@.subrange(start as int, end as int)) == -1,
        },
{
    let mut k = end;
    let ghost name = chars@.subrange(start as int, end as int);
    while k > start
        invariant
            start <= k <= end <= chars.len(),
            name == chars@.subrange(start as int, end as int),
            last_dot(name) == last_dot(chars@.subrange(start as int, k as int)),
        decreases k,
    {
        let ghost part = chars@.subrange(start as int, k as int);
        if chars[k - 1] == '.' {
            return Some(k - 1);
        }
        assert(part.drop_last() =~= chars@.subrange(start as int, k - 1));
        k = k - 1;
    }
    None
}

/// The extension of a file name.
pub fn find_extension(name: &str) -> (extension: Option<String>)
    ensures
        match extension {
            Some(extension) => extension_of(name@) == Some(extension@),
            None => extension_of(name@) is None,
        },
{
    let chars = chars_of(name);
    let end = chars.len();
    let dot = find_last_dot(&chars, 0, end);
    assert(chars@.subrange(0, end as int) =~= chars@);
    match dot {
        Some(d) => {
            if d == 0 {
                return None;
            }
            let extension = name.substring_char(d + 1, end).to_owned();
            assert(extension@ =~= name@.skip(d + 1));
            Some(extension)
        },
        None => None,
    }
}

/// One more item through a filter.
pub proof fn lemma_filter_next<A>(s: Seq<A>, keep: spec_fn(A) -> bool, i: int)
    requires
        0 <= i < s.len(),
    ensures
        s.take(i + 1).filter(keep) == if keep(s[i]) {
            s.take(i).filter(keep).push(s[i])
        } else {
            s.take(i).filter(keep)
        },
{
    reveal(Seq::filter);
    assert(s.take(i + 1).drop_last() =~= s.take(i));
}

/// What is in a list with another item behind it.
pub proof fn lemma_push_members<A>(s: Seq<A>, a: A)
    ensures
        forall|p: A| #[trigger] s.push(a).contains(p) <==> s.contains(p) || p == a,
        s.no_duplicates() && !s.contains(a) ==> s.push(a).no_duplicates(),
{
    let t = s.push(a);
    assert forall|p: A| #[trigger] t.contains(p) <==> s.contains(p) || p == a by {
        if s.contains(p) {
            let k = choose|k: int| 0 <= k < s.len() && s[k] == p;
            assert(t[k] == p);
        }
        assert(t[s.len() as int] == a);
        if t.contains(p) {
            let k = choose|k: int| 0 <= k < t.len() && t[k] == p;
            if k < s.len() {
                assert(s[k] == p);
            }
        }
    }
    if s.no_duplicates() && !s.contains(a) {
        assert forall|i: int, j: int| 0 <= i < t.len() && 0 <= j < t.len() && i != j implies t[i]
            != t[j] by {
            if i < s.len() {
                assert(s.contains(s[i]));
            }
            if j < s.len() {
                assert(s.contains(s[j]));
            }
        }
    }
}

/// What a filter leaves in a list.
pub proof fn lemma_filter_members<A>(s: Seq<A>, keep: spec_fn(A) -> bool)
    ensures
        forall|p: A| #[trigger] s.filter(keep).contains(p) <==> s.contains(p) && keep(p),
        s.no_duplicates() ==> s.filter(keep).no_duplicates(),
    decreases s.len(),
{
    reveal(Seq::filter);
    if s.len() > 0 {
        let head = s.drop_last();
        lemma_filter_members(head, keep);
        assert(s =~= head.push(s.last()));
        lemma_push_members(head, s.last());
        lemma_push_members(head.filter(keep), s.last());
        if s.no_duplicates() && head.contains(s.last()) {
            let k = choose|k: int| 0 <= k < head.len() && head[k] == s.last();
            assert(s[k] == s[s.len() - 1]);
        }
    }
}

/// A list and its next item, as a set.
pub proof fn lemma_take_next(s: Seq<Seq<char>>, i: int)
    requires
        0 <= i < s.len(),
    ensures
        s.take(i + 1) == s.take(i).push(s[i]),
        s.take(i + 1).to_set() == s.take(i).to_set().insert(s[i]),
{
    let next = s.take(i + 1);
    assert(next =~= s.take(i).push(s[i]));
    assert forall|p: Seq<char>| next.to_set().contains(p) == #[trigger] s.take(i).to_set().insert(
        s[i],
    ).contains(p) by {
        if s.take(i).contains(p) {
            let k = choose|k: int| 0 <= k < i && s.take(i)[k] == p;
            assert(next[k] == p);
        }
        assert(next[i] == s[i]);
        if next.contains(p) {
            let k = choose|k: int| 0 <= k < next.len() && next[k] == p;
            if k < i {
                assert(s.take(i)[k] == p);
            }
        }
    }
    assert(next.to_set() =~= s.take(i).to_set().insert(s[i]));
}

} // verus!

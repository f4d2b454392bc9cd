//! The decoded pictures that wait for a place in the window, by path.

use crate::image_loader::{DecodedImage, Picture};
use vstd::prelude::*;

verus! {

/// A decoded picture and its path.
struct ReadyImage {
    path: String,
    image: DecodedImage,
}

/// Decoded pictures by path, one for each path.
pub struct ReadyImages {
    entries: Vec<ReadyImage>,
}

spec fn entry_paths(entries: Seq<ReadyImage>) -> Seq<Seq<char>> {
    entries.map_values(|e: ReadyImage| e.path@)
}

spec fn entry_map(entries: Seq<ReadyImage>) -> Map<Seq<char>, Picture>
    decreases entries.len(),
{
    if entries.len() == 0 {
        Map::empty()
    } else {
        entry_map(entries.drop_last()).insert(entries.last().path@, entries.last().image@)
    }
}

/// What `entry_map` holds, where no path occurs twice.
proof fn lemma_entry_map(entries: Seq<ReadyImage>)
    requires
        entry_paths(entries).no_duplicates(),
    ensures
        entry_map(entries).dom().finite(),
        entry_map(entries).len() == entries.len(),
        forall|p: Seq<char>|
            #[trigger] entry_map(entries).contains_key(p) <==> entry_paths(entries).contains(p),
        forall|i: int|
            0 <= i < entries.len() ==> entry_map(entries).contains_key(
                (#[trigger] entries[i]).path@,
            ) && entry_map(entries)[entries[i].path@] == entries[i].image@,
    decreases entries.len(),
{
    if entries.len() > 0 {
        let head = entries.drop_last();
        let last = entries.last();
        let paths = entry_paths(entries);
        assert(entry_paths(head) =~= paths.drop_last());
        lemma_entry_map(head);
        assert(!entry_paths(head).contains(last.path@)) by {
            if entry_paths(head).contains(last.path@) {
                let k = choose|k: int|
                    0 <= k < entry_paths(head).len() && entry_paths(head)[k] == last.path@;
                assert(paths[k] == paths[entries.len() - 1]);
            }
        }
        assert forall|p: Seq<char>|
            #[trigger] entry_map(entries).contains_key(p) <==> paths.contains(p) by {
            if entry_paths(head).contains(p) {
                let k = choose|k: int|
                    0 <= k < entry_paths(head).len() && entry_paths(head)[k] == p;
                assert(paths[k] == p);
            }
            assert(paths[entries.len() - 1] == last.path@);
            if paths.contains(p) && p != last.path@ {
                let k = choose|k: int| 0 <= k < paths.len() && paths[k] == p;
                assert(entry_paths(head)[k] == p);
            }
        }
        assert forall|i: int| 0 <= i < entries.len() implies entry_map(entries).contains_key(
            (#[trigger] entries[i]).path@,
        ) && entry_map(entries)[entries[i].path@] == entries[i].image@ by {
            if i < entries.len() - 1 {
                assert(head[i] == entries[i]);
                assert(entry_paths(head)[i] == entries[i].path@);
            }
        }
    }
}

impl View for ReadyImages {
    type V = Map<Seq<char>, Picture>;

    closed spec fn view(&self) -> Map<Seq<char>, Picture> {
        entry_map(self.entries@)
    }
}

impl ReadyImages {
    #[verifier::type_invariant]
    spec fn one_for_each_path(self) -> bool {
        entry_paths(self.entries@).no_duplicates()
    }

    pub fn new() -> (ready: Self)
        ensures
            ready@ == Map::<Seq<char>, Picture>::empty(),
    {
        Self { entries: Vec::new() }
    }

    /// How many pictures there are.
    pub fn len(&self) -> (count: usize)
        ensures
            count == self@.len(),
            self@.dom().finite(),
    {
        proof {
            use_type_invariant(self);
            lemma_entry_map(self.entries@);
        }
        self.entries.len()
    }

    fn place_of(&self, path: &String) -> (place: Option<usize>)
        ensures
            self@.dom().finite(),
            match place {
                Some(i) => i < self.entries.len() && self.entries@[i as int].path@ == path@
                    && self@.contains_key(path@) && self@[path@] == self.entries@[i as int].image@,
                None => !self@.contains_key(path@),
            },
    {
        proof {
            use_type_invariant(self);
            lemma_entry_map(self.entries@);
        }
        let mut i: usize = 0;
        while i < self.entries.len()
            invariant
                i <= self.entries.len(),
                entry_paths(self.entries@).no_duplicates(),
                forall|j: int| 0 <= j < i ==> (#[trigger] self.entries@[j]).path@ != path@,
            decreases self.entries.len() - i,
        {
            if self.entries[i].path == *path {
                proof {
                    lemma_entry_map(self.entries@);
                    assert(self.entries@[i as int].path@ == path@);
                }
                return Some(i);
            }
            i = i + 1;
        }
        proof {
            lemma_entry_map(self.entries@);
            let paths = entry_paths(self.entries@);
            if paths.contains(path@) {
                let k = choose|k: int| 0 <= k < paths.len() && paths[k] == path@;
                assert(self.entries@[k].path@ == path@);
            }
        }
        None
    }

    pub fn contains_key(&self, path: &String) -> (found: bool)
        ensures
            found == self@.contains_key(path@),
            self@.dom().finite(),
    {
        self.place_of(path).is_some()
    }

    /// The picture of a path.
    pub fn get(&self, path: &String) -> (image: Option<&DecodedImage>)
        ensures
            match image {
                Some(image) => self@.contains_key(path@) && self@[path@] == image@,
                None => !self@.contains_key(path@),
            },
            self@.dom().finite(),
    {
        match self.place_of(path) {
            Some(i) => Some(&self.entries[i].image),
            None => None,
        }
    }

    /// Takes the picture of a path out.
    pub fn remove(&mut self, path: &String) -> (image: Option<DecodedImage>)
        ensures
            final(self)@ == old(self)@.remove(path@),
            match image {
                Some(image) => old(self)@.contains_key(path@) && old(self)@[path@] == image@,
                None => !old(self)@.contains_key(path@),
            },
            old(self)@.dom().finite(),
    {
        let place = self.place_of(path);
        match place {
            None => {
                assert(self@ =~= self@.remove(path@));
                None
            },
            Some(i) => {
                let ghost before = self.entries@;
                let mut entries: Vec<ReadyImage> = Vec::new();
                proof {
                    use_type_invariant(&*self);
                }
                std::mem::swap(&mut entries, &mut self.entries);
                let entry = entries.remove(i);
                proof {
                    lemma_without_entry(before, i as int);
                }
                self.entries = entries;
                Some(entry.image)
            },
        }
    }

    /// Puts a picture in and hands back the one that the path had before.
    pub fn insert(&mut self, path: String, image: DecodedImage) -> (earlier: Option<DecodedImage>)
        ensures
            final(self)@ == old(self)@.insert(path@, image@),
            match earlier {
                Some(earlier) => old(self)@.contains_key(path@) && old(self)@[path@] == earlier@,
                None => !old(self)@.contains_key(path@),
            },
            old(self)@.dom().finite(),
    {
        let ghost start = self@;
        let earlier = self.remove(&path);
        let ghost before = self.entries@;
        let mut entries: Vec<ReadyImage> = Vec::new();
        proof {
            use_type_invariant(&*self);
            lemma_entry_map(before);
        }
        std::mem::swap(&mut entries, &mut self.entries);
        entries.push(ReadyImage { path, image });
        proof {
            let after = entries@;
            assert(after.drop_last() =~= before);
            assert(entry_map(after) =~= start.insert(path@, image@));
            assert(entry_paths(after) =~= entry_paths(before).push(path@));
            assert(!entry_paths(before).contains(path@));
            assert(entry_paths(after).no_duplicates()) by {
                assert forall|i: int, j: int|
                    0 <= i < after.len() && 0 <= j < after.len() && i != j implies entry_paths(
                    after,
                )[i] != entry_paths(after)[j] by {
                    if i == before.len() {
                        assert(entry_paths(before)[j] != path@);
                    } else if j == before.len() {
                        assert(entry_paths(before)[i] != path@);
                    } else {
                        assert(entry_paths(before)[i] != entry_paths(before)[j]);
                    }
                }
            }
        }
        self.entries = entries;
        earlier
    }

    pub fn clear(&mut self)
        ensures
            final(self)@ == Map::<Seq<char>, Picture>::empty(),
    {
        self.entries = Vec::new();
    }
}

/// Taking one entry out takes its path out of the map and nothing else.
proof fn lemma_without_entry(entries: Seq<ReadyImage>, i: int)
    requires
        0 <= i < entries.len(),
        entry_paths(entries).no_duplicates(),
    ensures
        entry_paths(entries.remove(i)).no_duplicates(),
        entry_map(entries.remove(i)) == entry_map(entries).remove(entries[i].path@),
{
    let rest = entries.remove(i);
    let paths = entry_paths(entries);
    assert(entry_paths(rest) =~= paths.remove(i));
    assert(entry_paths(rest).no_duplicates()) by {
        assert forall|a: int, b: int|
            0 <= a < rest.len() && 0 <= b < rest.len() && a != b implies entry_paths(rest)[a]
            != entry_paths(rest)[b] by {
            let x = if a < i { a } else { a + 1 };
            let y = if b < i { b } else { b + 1 };
            assert(paths[x] != paths[y]);
        }
    }
    lemma_entry_map(entries);
    lemma_entry_map(rest);
    let m = entry_map(entries).remove(entries[i].path@);
    assert forall|p: Seq<char>| entry_map(rest).contains_key(p) == #[trigger] m.contains_key(p) by {
        if entry_paths(rest).contains(p) {
            let k = choose|k: int| 0 <= k < rest.len() && entry_paths(rest)[k] == p;
            let x = if k < i { k } else { k + 1 };
            assert(paths[x] == p);
            assert(paths[x] != paths[i]);
        }
        if paths.contains(p) && p != entries[i].path@ {
            let k = choose|k: int| 0 <= k < paths.len() && paths[k] == p;
            let x = if k < i { k } else { k - 1 };
            assert(entry_paths(rest)[x] == p);
        }
    }
    assert forall|p: Seq<char>| m.contains_key(p) implies entry_map(rest)[p] == #[trigger] m[p] by {
        let k = choose|k: int| 0 <= k < rest.len() && entry_paths(rest)[k] == p;
        assert(entry_map(rest).contains_key(p));
        assert(rest[k].path@ == p);
        let x = if k < i { k } else { k + 1 };
        assert(entries[x] == rest[k]);
    }
    assert(entry_map(rest) =~= m);
}

/// Bytes of all the pictures together.
pub open spec fn total_bytes(ready: Map<Seq<char>, Picture>) -> nat
    decreases ready.len(),
    when ready.dom().finite()
{
    if ready.dom().len() == 0 {
        0
    } else {
        let path = ready.dom().choose();
        if ready.contains_key(path) {
            ready[path].bytes + total_bytes(ready.remove(path))
        } else {
            0
        }
    }
}

/// One picture's share in [`total_bytes`].
pub proof fn lemma_total_remove(ready: Map<Seq<char>, Picture>, path: Seq<char>)
    requires
        ready.dom().finite(),
        ready.contains_key(path),
    ensures
        total_bytes(ready) == ready[path].bytes + total_bytes(ready.remove(path)),
    decreases ready.len(),
{
    let first = ready.dom().choose();
    assert(ready.dom().contains(path));
    assert(ready.dom().len() > 0);
    assert(ready.dom().contains(first));
    if first != path {
        lemma_total_remove(ready.remove(first), path);
        lemma_total_remove(ready.remove(path), first);
        assert(ready.remove(first).remove(path) =~= ready.remove(path).remove(first));
    }
}

/// What [`total_bytes`] is after a picture has been put in.
pub proof fn lemma_total_insert(ready: Map<Seq<char>, Picture>, path: Seq<char>, image: Picture)
    requires
        ready.dom().finite(),
    ensures
        total_bytes(ready.insert(path, image)) == total_bytes(ready.remove(path)) + image.bytes,
{
    let next = ready.insert(path, image);
    lemma_total_remove(next, path);
    assert(next.remove(path) =~= ready.remove(path));
}

} // verus!

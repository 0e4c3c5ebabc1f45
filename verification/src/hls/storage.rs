//! Where HLS files land.

use vstd::prelude::*;
use vstd::string::*;

use crate::bytes;
use crate::io::IoError;
use crate::text::{comes_before, lemma_before_before, lemma_one_is_before, same_text, text_before};

verus! {

/// Where HLS files land. Implementations must make `write_file` appear atomic
/// to readers (players poll the playlist while it is being rewritten).
pub trait HlsStorage: Sized {
    /// The files, by name. Unknown of an implementation that does not say.
    open spec fn files(&self) -> Map<Seq<char>, Seq<u8>> {
        arbitrary()
    }

    /// True if every operation succeeds. Unknown of an implementation that does
    /// not say.
    open spec fn dependable(&self) -> bool {
        arbitrary()
    }

    /// Create or replace a file's full contents. Other files are not touched,
    /// whatever comes of it.
    fn write_file(&mut self, name: &str, data: &[u8]) -> (r: Result<(), IoError>)
        ensures
            r is Ok ==> final(self).files() == old(self).files().insert(name@, data@),
            final(self).files().remove(name@) == old(self).files().remove(name@),
            old(self).dependable() ==> r is Ok && final(self).dependable(),
    ;

    /// Delete a file (retired segment). Missing files are not an error. Other
    /// files are not touched, whatever comes of it.
    fn remove_file(&mut self, name: &str) -> (r: Result<(), IoError>)
        ensures
            r is Ok ==> final(self).files() == old(self).files().remove(name@),
            final(self).files().remove(name@) == old(self).files().remove(name@),
            old(self).dependable() ==> r is Ok && final(self).dependable(),
    ;
}

/// The files of a list, by name.
spec fn files_of(entries: Seq<(String, Vec<u8>)>) -> Map<Seq<char>, Seq<u8>>
    decreases entries.len(),
{
    if entries.len() == 0 {
        Map::empty()
    } else {
        files_of(entries.drop_last()).insert(entries.last().0@, entries.last().1@)
    }
}

/// True if the names are in order, each once.
spec fn in_name_order(entries: Seq<(String, Vec<u8>)>) -> bool {
    forall|i: int, j: int|
        0 <= i < j < entries.len() ==> text_before(
            (#[trigger] entries[i]).0@,
            (#[trigger] entries[j]).0@,
        )
}

proof fn lemma_distinct(entries: Seq<(String, Vec<u8>)>, i: int, j: int)
    requires
        in_name_order(entries),
        0 <= i < entries.len(),
        0 <= j < entries.len(),
        entries[i].0@ == entries[j].0@,
    ensures
        i == j,
{
    lemma_one_is_before(entries[i].0@, entries[j].0@);
    if i < j {
        assert(text_before(entries[i].0@, entries[j].0@));
    } else if j < i {
        assert(text_before(entries[j].0@, entries[i].0@));
    }
}

proof fn lemma_rest_in_order(entries: Seq<(String, Vec<u8>)>)
    requires
        in_name_order(entries),
        entries.len() > 0,
    ensures
        in_name_order(entries.drop_last()),
{
    let rest = entries.drop_last();
    assert forall|i: int, j: int| 0 <= i < j < rest.len() implies text_before(
        (#[trigger] rest[i]).0@,
        (#[trigger] rest[j]).0@,
    ) by {
        assert(text_before(entries[i].0@, entries[j].0@));
    }
}

proof fn lemma_file(entries: Seq<(String, Vec<u8>)>, name: Seq<char>)
    requires
        in_name_order(entries),
    ensures
        files_of(entries).contains_key(name) <==> exists|i: int|
            0 <= i < entries.len() && (#[trigger] entries[i]).0@ == name,
        forall|i: int|
            0 <= i < entries.len() && (#[trigger] entries[i]).0@ == name ==> files_of(
                entries,
            )[name] == entries[i].1@,
    decreases entries.len(),
{
    if entries.len() > 0 {
        let rest = entries.drop_last();
        lemma_rest_in_order(entries);
        lemma_file(rest, name);
        let last = entries.len() - 1;
        if files_of(entries).contains_key(name) {
            if entries[last].0@ != name {
                let i = choose|i: int| 0 <= i < rest.len() && (#[trigger] rest[i]).0@ == name;
                assert(entries[i].0@ == name);
            }
        }
        assert forall|i: int| 0 <= i < entries.len() && (#[trigger] entries[i]).0@
            == name implies files_of(entries)[name] == entries[i].1@ && files_of(
            entries,
        ).contains_key(name) by {
            if i < last {
                assert(rest[i].0@ == name);
                if entries[last].0@ == name {
                    lemma_distinct(entries, i, last);
                }
            }
        }
    }
}

/// In-memory storage for tests and embedded use.
#[derive(Debug)]
pub struct MemoryStorage {
    entries: Vec<(String, Vec<u8>)>,
}

impl MemoryStorage {
    #[verifier::type_invariant]
    spec fn ordered(self) -> bool {
        in_name_order(self.entries@)
    }

    /// No files.
    pub fn new() -> (s: Self)
        ensures
            s.files() == Map::<Seq<char>, Seq<u8>>::empty(),
    {
        MemoryStorage { entries: Vec::new() }
    }

    /// Snapshot of a stored file, if present.
    pub fn get(&self, name: &str) -> (data: Option<&[u8]>)
        ensures
            match data {
                Some(d) => self.files().contains_key(name@) && self.files()[name@] == d@,
                None => !self.files().contains_key(name@),
            },
    {
        proof {
            use_type_invariant(self);
            lemma_file(self.entries@, name@);
        }
        match position(&self.entries, name) {
            Ok(i) => Some(self.entries[i].1.as_slice()),
            Err(_) => None,
        }
    }

    /// Names of every stored file, sorted.
    pub fn names(&self) -> (names: Vec<&str>)
        ensures
            forall|i: int, j: int|
                0 <= i < j < names@.len() ==> text_before(
                    (#[trigger] names@[i])@,
                    (#[trigger] names@[j])@,
                ),
            forall|name: Seq<char>|
                #[trigger] self.files().contains_key(name) <==> exists|i: int|
                    0 <= i < names@.len() && (#[trigger] names@[i])@ == name,
    {
        proof {
            use_type_invariant(self);
        }
        let n: usize = self.entries.len();
        let mut names: Vec<&str> = Vec::new();
        let mut i: usize = 0;
        while i < n
            invariant
                i <= n == self.entries@.len(),
                names@.len() == i,
                forall|k: int| 0 <= k < i ==> (#[trigger] names@[k])@ == self.entries@[k].0@,
            decreases n - i,
        {
            names.push(self.entries[i].0.as_str());
            i = i + 1;
        }
        proof {
            assert forall|i: int, j: int| 0 <= i < j < names@.len() implies text_before(
                (#[trigger] names@[i])@,
                (#[trigger] names@[j])@,
            ) by {
                assert(text_before(self.entries@[i].0@, self.entries@[j].0@));
            }
            assert forall|name: Seq<char>|
                #[trigger] self.files().contains_key(name) <==> exists|i: int|
                    0 <= i < names@.len() && (#[trigger] names@[i])@ == name by {
                lemma_file(self.entries@, name);
                if self.files().contains_key(name) {
                    let i = choose|i: int|
                        0 <= i < self.entries@.len() && (#[trigger] self.entries@[i]).0@ == name;
                    assert(names@[i]@ == name);
                }
                if exists|i: int| 0 <= i < names@.len() && (#[trigger] names@[i])@ == name {
                    let i = choose|i: int| 0 <= i < names@.len() && (#[trigger] names@[i])@ == name;
                    assert(self.entries@[i].0@ == name);
                }
            }
        }
        names
    }
}

impl Default for MemoryStorage {
    fn default() -> (s: Self)
        ensures
            s.files() == Map::<Seq<char>, Seq<u8>>::empty(),
    {
        Self::new()
    }
}

/// Where a name is, or where it belongs.
fn position(entries: &Vec<(String, Vec<u8>)>, name: &str) -> (at: Result<usize, usize>)
    requires
        in_name_order(entries@),
    ensures
        match at {
            Ok(i) => i < entries@.len() && entries@[i as int].0@ == name@,
            Err(i) => {
                &&& i <= entries@.len()
                &&& forall|k: int| 0 <= k < i ==> text_before((#[trigger] entries@[k]).0@, name@)
                &&& forall|k: int|
                    i <= k < entries@.len() ==> text_before(name@, (#[trigger] entries@[k]).0@)
                &&& forall|k: int|
                    0 <= k < entries@.len() ==> (#[trigger] entries@[k]).0@ != name@
            },
        },
{
    let n: usize = entries.len();
    let mut i: usize = 0;
    while i < n && comes_before(entries[i].0.as_str(), name)
        invariant
            i <= n == entries@.len(),
            forall|k: int| 0 <= k < i ==> text_before((#[trigger] entries@[k]).0@, name@),
        decreases n - i,
    {
        i = i + 1;
    }
    if i < n && same_text(entries[i].0.as_str(), name) {
        return Ok(i);
    }
    proof {
        if i < n {
            lemma_one_is_before(entries@[i as int].0@, name@);
            assert forall|k: int| i <= k < entries@.len() implies text_before(
                name@,
                (#[trigger] entries@[k]).0@,
            ) by {
                if k > i {
                    assert(text_before(entries@[i as int].0@, entries@[k].0@));
                    lemma_before_before(name@, entries@[i as int].0@, entries@[k].0@);
                }
            }
        }
        assert forall|k: int| 0 <= k < entries@.len() implies (#[trigger] entries@[k]).0@
            != name@ by {
            lemma_one_is_before(entries@[k].0@, name@);
        }
    }
    Err(i)
}

proof fn lemma_written(
    before: Seq<(String, Vec<u8>)>,
    after: Seq<(String, Vec<u8>)>,
    name: Seq<char>,
    data: Seq<u8>,
)
    requires
        in_name_order(before),
        in_name_order(after),
        exists|i: int|
            0 <= i < after.len() && (#[trigger] after[i]).0@ == name && after[i].1@ == data,
        forall|i: int|
            0 <= i < before.len() && (#[trigger] before[i]).0@ != name ==> exists|k: int|
                0 <= k < after.len() && (#[trigger] after[k]) == before[i],
        forall|k: int|
            0 <= k < after.len() && (#[trigger] after[k]).0@ != name ==> exists|i: int|
                0 <= i < before.len() && (#[trigger] before[i]) == after[k],
    ensures
        files_of(after) == files_of(before).insert(name, data),
{
    let goal = files_of(before).insert(name, data);
    assert forall|n: Seq<char>|
        #![trigger files_of(after).contains_key(n)]
        #![trigger goal.contains_key(n)]
        (files_of(after).contains_key(n) <==> goal.contains_key(n)) && (files_of(
            after,
        ).contains_key(n) ==> files_of(after)[n] == goal[n]) by {
        lemma_file(before, n);
        lemma_file(after, n);
        if n != name {
            if files_of(after).contains_key(n) {
                let k = choose|k: int| 0 <= k < after.len() && (#[trigger] after[k]).0@ == n;
                let i = choose|i: int| 0 <= i < before.len() && (#[trigger] before[i]) == after[k];
                assert(before[i].0@ == n);
            }
            if files_of(before).contains_key(n) {
                let i = choose|i: int| 0 <= i < before.len() && (#[trigger] before[i]).0@ == n;
                let k = choose|k: int| 0 <= k < after.len() && (#[trigger] after[k]) == before[i];
                assert(after[k].0@ == n);
            }
        }
    }
    assert(files_of(after) =~= goal);
}

#[verifier::rlimit(40)]
proof fn lemma_removed(
    before: Seq<(String, Vec<u8>)>,
    after: Seq<(String, Vec<u8>)>,
    name: Seq<char>,
)
    requires
        in_name_order(before),
        in_name_order(after),
        forall|k: int| 0 <= k < after.len() ==> (#[trigger] after[k]).0@ != name,
        forall|i: int|
            0 <= i < before.len() && (#[trigger] before[i]).0@ != name ==> exists|k: int|
                0 <= k < after.len() && (#[trigger] after[k]) == before[i],
        forall|k: int|
            0 <= k < after.len() ==> exists|i: int|
                0 <= i < before.len() && (#[trigger] before[i]) == (#[trigger] after[k]),
    ensures
        files_of(after) == files_of(before).remove(name),
{
    let goal = files_of(before).remove(name);
    assert forall|n: Seq<char>|
        #![trigger files_of(after).contains_key(n)]
        #![trigger goal.contains_key(n)]
        (files_of(after).contains_key(n) <==> goal.contains_key(n)) && (files_of(
            after,
        ).contains_key(n) ==> files_of(after)[n] == goal[n]) by {
        lemma_file(before, n);
        lemma_file(after, n);
        if files_of(after).contains_key(n) {
            let k = choose|k: int| 0 <= k < after.len() && (#[trigger] after[k]).0@ == n;
            let i = choose|i: int| 0 <= i < before.len() && (#[trigger] before[i]) == after[k];
            assert(before[i].0@ == n);
        }
        if n != name && files_of(before).contains_key(n) {
            let i = choose|i: int| 0 <= i < before.len() && (#[trigger] before[i]).0@ == n;
            let k = choose|k: int| 0 <= k < after.len() && (#[trigger] after[k]) == before[i];
            assert(after[k].0@ == n);
        }
    }
    assert(files_of(after) =~= goal);
}

impl HlsStorage for MemoryStorage {
    closed spec fn files(&self) -> Map<Seq<char>, Seq<u8>> {
        files_of(self.entries@)
    }

    open spec fn dependable(&self) -> bool {
        true
    }

    fn write_file(&mut self, name: &str, data: &[u8]) -> (r: Result<(), IoError>) {
        proof {
            use_type_invariant(&*self);
        }
        let mut entries: Vec<(String, Vec<u8>)> = Vec::new();
        std::mem::swap(&mut entries, &mut self.entries);
        let ghost before = entries@;
        let entry: (String, Vec<u8>) = (name.to_owned(), bytes::copy_of(data));
        match position(&entries, name) {
            Ok(i) => {
                entries.set(i, entry);
                proof {
                    assert forall|a: int, b: int| 0 <= a < b < entries@.len() implies text_before(
                        (#[trigger] entries@[a]).0@,
                        (#[trigger] entries@[b]).0@,
                    ) by {
                        assert(text_before(before[a].0@, before[b].0@));
                    }
                    assert(entries@[i as int] == entry);
                    assert forall|k: int|
                        0 <= k < before.len() && (#[trigger] before[k]).0@
                            != name@ implies exists|m: int|
                        0 <= m < entries@.len() && (#[trigger] entries@[m]) == before[k] by {
                        assert(entries@[k] == before[k]);
                    }
                    assert forall|k: int|
                        0 <= k < entries@.len() && (#[trigger] entries@[k]).0@
                            != name@ implies exists|m: int|
                        0 <= m < before.len() && (#[trigger] before[m]) == entries@[k] by {
                        assert(before[k] == entries@[k]);
                    }
                    lemma_written(before, entries@, name@, data@);
                }
            },
            Err(i) => {
                entries.insert(i, entry);
                proof {
                    assert forall|a: int, b: int| 0 <= a < b < entries@.len() implies text_before(
                        (#[trigger] entries@[a]).0@,
                        (#[trigger] entries@[b]).0@,
                    ) by {
                        let x = if a < i {
                            a
                        } else {
                            a - 1
                        };
                        let y = if b < i {
                            b
                        } else {
                            b - 1
                        };
                        if a != i && b != i {
                            assert(text_before(before[x].0@, before[y].0@));
                        } else if a == i {
                            assert(text_before(name@, before[y].0@));
                        } else {
                            assert(text_before(before[x].0@, name@));
                        }
                    }
                    assert(entries@[i as int] == entry);
                    assert forall|k: int|
                        0 <= k < before.len() && (#[trigger] before[k]).0@
                            != name@ implies exists|m: int|
                        0 <= m < entries@.len() && (#[trigger] entries@[m]) == before[k] by {
                        let m = if k < i {
                            k
                        } else {
                            k + 1
                        };
                        assert(entries@[m] == before[k]);
                    }
                    assert forall|k: int|
                        0 <= k < entries@.len() && (#[trigger] entries@[k]).0@
                            != name@ implies exists|m: int|
                        0 <= m < before.len() && (#[trigger] before[m]) == entries@[k] by {
                        let m = if k < i {
                            k
                        } else {
                            k - 1
                        };
                        assert(before[m] == entries@[k]);
                    }
                    lemma_written(before, entries@, name@, data@);
                }
            },
        }
        self.entries = entries;
        Ok(())
    }

    fn remove_file(&mut self, name: &str) -> (r: Result<(), IoError>) {
        proof {
            use_type_invariant(&*self);
        }
        let mut entries: Vec<(String, Vec<u8>)> = Vec::new();
        std::mem::swap(&mut entries, &mut self.entries);
        let ghost before = entries@;
        match position(&entries, name) {
            Ok(i) => {
                let _removed: (String, Vec<u8>) = entries.remove(i);
                proof {
                    assert forall|a: int, b: int| 0 <= a < b < entries@.len() implies text_before(
                        (#[trigger] entries@[a]).0@,
                        (#[trigger] entries@[b]).0@,
                    ) by {
                        let x = if a < i {
                            a
                        } else {
                            a + 1
                        };
                        let y = if b < i {
                            b
                        } else {
                            b + 1
                        };
                        assert(text_before(before[x].0@, before[y].0@));
                    }
                    assert forall|k: int| 0 <= k < entries@.len() implies (#[trigger] entries@[k]).0@
                        != name@ by {
                        let x = if k < i {
                            k
                        } else {
                            k + 1
                        };
                        assert(entries@[k] == before[x]);
                        if before[x].0@ == name@ {
                            lemma_distinct(before, x, i as int);
                        }
                    }
                    assert forall|k: int|
                        0 <= k < before.len() && (#[trigger] before[k]).0@
                            != name@ implies exists|m: int|
                        0 <= m < entries@.len() && (#[trigger] entries@[m]) == before[k] by {
                        let m = if k < i {
                            k
                        } else {
                            k - 1
                        };
                        assert(entries@[m] == before[k]);
                    }
                    assert forall|k: int| 0 <= k < entries@.len() implies exists|m: int|
                        0 <= m < before.len() && (#[trigger] before[m]) == (
                        #[trigger] entries@[k]) by {
                        let m = if k < i {
                            k
                        } else {
                            k + 1
                        };
                        assert(before[m] == entries@[k]);
                    }
                    lemma_removed(before, entries@, name@);
                }
            },
            Err(_) => {
                proof {
                    lemma_file(before, name@);
                    assert(files_of(before).remove(name@) =~= files_of(before));
                }
            },
        }
        self.entries = entries;
        Ok(())
    }
}

} // verus!

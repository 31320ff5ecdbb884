//! The recently opened configuration files, most recently used last. The
//! list is plain data here; reading and writing it to disk happens outside.

use vstd::prelude::*;

use crate::listener::names_model;

verus! {

/// Position of the first entry with the given content, if any.
pub open spec fn file_idx(s: Seq<Seq<char>>, item: Seq<char>) -> Option<int>
    decreases s.len(),
{
    if s.len() == 0 {
        None
    } else if s[0] == item {
        Some(0int)
    } else {
        match file_idx(s.drop_first(), item) {
            Some(i) => Some(i + 1),
            None => None,
        }
    }
}

/// `file_idx` finds exactly the first entry with the content.
pub proof fn lemma_file_idx_char(s: Seq<Seq<char>>, item: Seq<char>)
    ensures
        match file_idx(s, item) {
            Some(i) => 0 <= i < s.len() && s[i] == item && (forall|j: int|
                0 <= j < i ==> s[j] != item),
            None => forall|j: int| 0 <= j < s.len() ==> s[j] != item,
        },
    decreases s.len(),
{
    if s.len() > 0 && s[0] != item {
        lemma_file_idx_char(s.drop_first(), item);
        assert(forall|j: int| 1 <= j < s.len() ==> #[trigger] s[j] == s.drop_first()[j - 1]);
    }
}

/// Removing an entry's first occurrence, if there is one.
pub open spec fn spec_remove_file(s: Seq<Seq<char>>, item: Seq<char>) -> Seq<Seq<char>> {
    match file_idx(s, item) {
        Some(i) => s.remove(i),
        None => s,
    }
}

/// Paths of recently opened files, oldest first.
#[derive(Debug)]
pub struct RecentFiles {
    files: Vec<String>,
}

impl RecentFiles {
    /// The paths as the specifications see them.
    pub closed spec fn model(&self) -> Seq<Seq<char>> {
        names_model(self.files@)
    }

    /// An empty history.
    pub fn new() -> (r: Self)
        ensures
            r.model() =~= Seq::<Seq<char>>::empty(),
    {
        RecentFiles { files: Vec::new() }
    }

    /// Move (or add) a path to the most-recent end.
    pub fn add(&mut self, item: String)
        ensures
            final(self).model() == spec_remove_file(old(self).model(), item@).push(item@),
    {
        self.remove(&item);
        let ghost mid = self.model();
        self.files.push(item);
        proof {
            assert(self.model() =~= mid.push(item@));
        }
    }

    /// Forget a path (its first occurrence, if listed).
    #[verifier::loop_isolation(false)]
    pub fn remove(&mut self, item: &String)
        ensures
            final(self).model() == spec_remove_file(old(self).model(), item@),
    {
        let ghost m0 = self.model();
        proof {
            lemma_file_idx_char(m0, item@);
        }
        let n = self.files.len();
        let mut i: usize = 0;
        while i < n
            invariant
                0 <= i <= n,
                self.model() == m0,
                n == self.files@.len(),
                forall|j: int| 0 <= j < i ==> (#[trigger] self.files@[j])@ != item@,
            decreases n - i,
        {
            if self.files[i] == *item {
                proof {
                    assert(m0[i as int] == item@);
                    assert(file_idx(m0, item@) == Some(i as int)) by {
                        lemma_file_idx_char(m0, item@);
                        match file_idx(m0, item@) {
                            Some(x) => {
                                if x < i {
                                    assert(self.files@[x]@ != item@);
                                } else if x > i {
                                    assert(m0[i as int] != item@);
                                }
                            },
                            None => {
                                assert(m0[i as int] != item@);
                            },
                        }
                    }
                }
                self.files.remove(i);
                proof {
                    assert(self.model() =~= m0.remove(i as int));
                }
                return ;
            }
            i += 1;
        }
        proof {
            assert(file_idx(m0, item@) is None) by {
                lemma_file_idx_char(m0, item@);
                match file_idx(m0, item@) {
                    Some(x) => {
                        assert(m0[x] == item@);
                        assert(self.files@[x]@ != item@);
                    },
                    None => {},
                }
            }
        }
    }

    /// The listed paths, oldest first.
    pub fn files(&self) -> (r: &Vec<String>)
        ensures
            names_model(r@) == self.model(),
    {
        &self.files
    }
}

impl Default for RecentFiles {
    fn default() -> (r: Self)
        ensures
            r.model() =~= Seq::<Seq<char>>::empty(),
    {
        RecentFiles::new()
    }
}

} // verus!

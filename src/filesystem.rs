//! The virtual file store: a mapping from logical paths to source text.
use vstd::prelude::*;
use vstd::string::StringExecFns;

verus! {

/// The view of one stored file: its path and its content.
pub open spec fn entry_view(p: (String, String)) -> (Seq<char>, Seq<char>) {
    (p.0@, p.1@)
}

/// The views of a sequence of stored files, in order.
pub open spec fn entries_view(s: Seq<(String, String)>) -> Seq<(Seq<char>, Seq<char>)> {
    s.map_values(|p: (String, String)| entry_view(p))
}

/// The mapping that saving the files of `s` one after the other produces:
/// a later file replaces an earlier one under the same path.
pub open spec fn map_of(s: Seq<(Seq<char>, Seq<char>)>) -> Map<Seq<char>, Seq<char>>
    decreases s.len(),
{
    if s.len() == 0 {
        Map::empty()
    } else {
        map_of(s.drop_last()).insert(s.last().0, s.last().1)
    }
}

/// No path occurs twice in `s`.
pub open spec fn keys_unique(s: Seq<(Seq<char>, Seq<char>)>) -> bool {
    forall|i: int, j: int| 0 <= i < j < s.len() ==> s[i].0 != s[j].0
}

proof fn lemma_map_of_lookup(s: Seq<(Seq<char>, Seq<char>)>, i: int)
    requires
        keys_unique(s),
        0 <= i < s.len(),
    ensures
        map_of(s).contains_key(s[i].0),
        map_of(s)[s[i].0] == s[i].1,
    decreases s.len(),
{
    if i < s.len() - 1 {
        lemma_map_of_lookup(s.drop_last(), i);
    }
}

proof fn lemma_map_of_absent(s: Seq<(Seq<char>, Seq<char>)>, k: Seq<char>)
    requires
        forall|i: int| 0 <= i < s.len() ==> s[i].0 != k,
    ensures
        !map_of(s).contains_key(k),
    decreases s.len(),
{
    if s.len() > 0 {
        lemma_map_of_absent(s.drop_last(), k);
    }
}

proof fn lemma_map_of_update(
    s: Seq<(Seq<char>, Seq<char>)>,
    i: int,
    p: (Seq<char>, Seq<char>),
)
    requires
        keys_unique(s),
        0 <= i < s.len(),
        s[i].0 == p.0,
    ensures
        map_of(s.update(i, p)) =~= map_of(s).insert(p.0, p.1),
    decreases s.len(),
{
    let t = s.update(i, p);
    if i == s.len() - 1 {
        assert(t.drop_last() =~= s.drop_last());
    } else {
        assert(t.drop_last() =~= s.drop_last().update(i, p));
        lemma_map_of_update(s.drop_last(), i, p);
    }
}

/// Saving twice to one path leaves what saving only the second time would.
pub proof fn lemma_last_save_wins(
    m: Map<Seq<char>, Seq<char>>,
    path: Seq<char>,
    first: Seq<char>,
    second: Seq<char>,
)
    ensures
        m.insert(path, first).insert(path, second) == m.insert(path, second),
{
    assert(m.insert(path, first).insert(path, second) =~= m.insert(path, second));
}

/// An in-memory file store. Saving to a path that is already present
/// replaces its content; reading never infers an extension.
pub struct InMemFileSystem {
    files: Vec<(String, String)>,
}

impl View for InMemFileSystem {
    type V = Map<Seq<char>, Seq<char>>;

    closed spec fn view(&self) -> Map<Seq<char>, Seq<char>> {
        map_of(entries_view(self.files@))
    }
}

impl InMemFileSystem {
    /// Each path is stored once.
    pub closed spec fn wf(&self) -> bool {
        keys_unique(entries_view(self.files@))
    }

    /// An empty store.
    pub fn new() -> (r: Self)
        ensures
            r.wf(),
            r@ == Map::<Seq<char>, Seq<char>>::empty(),
    {
        let r = InMemFileSystem { files: Vec::new() };
        assert(entries_view(r.files@) =~= Seq::empty());
        r
    }

    /// A store that holds the given files, saved in order: where a path
    /// occurs twice the later content is kept.
    pub fn from(files: Vec<(String, String)>) -> (r: Self)
        ensures
            r.wf(),
            r@ == map_of(entries_view(files@)),
    {
        let mut r = InMemFileSystem::new();
        let mut i: usize = 0;
        while i < files.len()
            invariant
                i <= files.len(),
                r.wf(),
                r@ == map_of(entries_view(files@.take(i as int))),
            decreases files.len() - i,
        {
            let ghost before = entries_view(files@.take(i as int));
            r.save(files[i].0.as_str(), files[i].1.as_str());
            assert(entries_view(files@.take(i + 1)).drop_last() =~= before);
            i = i + 1;
        }
        assert(files@.take(files.len() as int) =~= files@);
        r
    }

    /// The index under which `filename` is stored, if any.
    fn position(&self, filename: &str) -> (r: Option<usize>)
        requires
            self.wf(),
        ensures
            match r {
                Some(i) => i < self.files@.len() && self.files@[i as int].0@ == filename@,
                None => forall|i: int|
                    0 <= i < self.files@.len() ==> self.files@[i].0@ != filename@,
            },
    {
        let key = filename.to_owned();
        let mut i: usize = 0;
        while i < self.files.len()
            invariant
                i <= self.files@.len(),
                key@ == filename@,
                forall|j: int| 0 <= j < i ==> self.files@[j].0@ != filename@,
            decreases self.files.len() - i,
        {
            if self.files[i].0 == key {
                return Some(i);
            }
            i = i + 1;
        }
        None
    }

    /// Stores `content` under `filename`, replacing what was there.
    pub fn save(&mut self, filename: &str, content: &str)
        requires
            old(self).wf(),
        ensures
            final(self).wf(),
            final(self)@ == old(self)@.insert(filename@, content@),
    {
        let pair = (filename.to_owned(), content.to_owned());
        let ghost s = entries_view(self.files@);
        match self.position(filename) {
            Some(i) => {
                self.files.set(i, pair);
                proof {
                    assert(entries_view(self.files@) =~= s.update(i as int, entry_view(pair)));
                    lemma_map_of_update(s, i as int, entry_view(pair));
                }
            },
            None => {
                self.files.push(pair);
                proof {
                    let t = entries_view(self.files@);
                    assert(t =~= s.push(entry_view(pair)));
                    assert(t.drop_last() =~= s);
                }
            },
        }
    }

    /// A copy of the content stored under `filename`, if any.
    pub fn get(&self, filename: &str) -> (r: Option<String>)
        requires
            self.wf(),
        ensures
            match r {
                Some(c) => self@.contains_key(filename@) && c@ == self@[filename@],
                None => !self@.contains_key(filename@),
            },
    {
        match self.position(filename) {
            Some(i) => {
                proof {
                    lemma_map_of_lookup(entries_view(self.files@), i as int);
                }
                Some(self.files[i].1.clone())
            },
            None => {
                proof {
                    lemma_map_of_absent(entries_view(self.files@), filename@);
                }
                None
            },
        }
    }

    /// Whether a file is stored under exactly `filename`.
    pub fn contains(&self, filename: &str) -> (r: bool)
        requires
            self.wf(),
        ensures
            r == self@.contains_key(filename@),
    {
        self.get(filename).is_some()
    }

    /// The stored files, each path once.
    pub fn files(&self) -> (r: Vec<(String, String)>)
        requires
            self.wf(),
        ensures
            keys_unique(entries_view(r@)),
            map_of(entries_view(r@)) == self@,
    {
        let mut r: Vec<(String, String)> = Vec::new();
        let mut i: usize = 0;
        while i < self.files.len()
            invariant
                i <= self.files@.len(),
                entries_view(r@) =~= entries_view(self.files@).take(i as int),
            decreases self.files.len() - i,
        {
            let p = (self.files[i].0.clone(), self.files[i].1.clone());
            let ghost before = r@;
            r.push(p);
            proof {
                assert(r@ =~= before.push(p));
                assert(entry_view(p) == entries_view(self.files@)[i as int]);
                assert(entries_view(r@) =~= entries_view(before).push(entry_view(p)));
            }
            i = i + 1;
        }
        assert(entries_view(self.files@).take(i as int) =~= entries_view(self.files@));
        r
    }

    /// A store with the same files, for a reader that must not see later
    /// changes.
    pub fn snapshot(&self) -> (r: Self)
        requires
            self.wf(),
        ensures
            r.wf(),
            r@ == self@,
    {
        let files = self.files();
        let r = InMemFileSystem { files };
        r
    }
}

/// `path` starts at the root.
pub open spec fn is_absolute(path: Seq<char>) -> bool {
    path.len() > 0 && path[0] == '/'
}

/// The message of a failed read of `path`.
pub open spec fn not_found_message(path: Seq<char>) -> Seq<char> {
    path + " does not exist"@
}

/// Reads source files for a parser out of a store of its own, which later
/// changes to the store it was made from do not reach.
pub struct InMemFileLoader {
    fs: InMemFileSystem,
}

impl InMemFileLoader {
    /// The files that this loader reads.
    pub closed spec fn files_view(&self) -> Map<Seq<char>, Seq<char>> {
        self.fs@
    }

    pub closed spec fn wf(&self) -> bool {
        self.fs.wf()
    }

    /// A loader over the files of `fs`.
    pub fn new(fs: InMemFileSystem) -> (r: InMemFileLoader)
        requires
            fs.wf(),
        ensures
            r.wf(),
            r.files_view() == fs@,
    {
        InMemFileLoader { fs }
    }

    /// Whether a file is stored under exactly `path`.
    pub fn file_exists(&self, path: &str) -> (r: bool)
        requires
            self.wf(),
        ensures
            r == self.files_view().contains_key(path@),
    {
        self.fs.contains(path)
    }

    /// `path` itself where it starts at the root; the root otherwise.
    pub fn abs_path(path: &str) -> (r: String)
        ensures
            is_absolute(path@) ==> r@ == path@,
            !is_absolute(path@) ==> r@ == seq!['/'],
    {
        let chars = crate::text::chars_of(path);
        if chars.len() > 0 && chars[0] == '/' {
            path.to_owned()
        } else {
            let r = "/".to_owned();
            proof {
                reveal_strlit("/");
            }
            assert(r@ =~= seq!['/']);
            r
        }
    }

    /// The content stored under `path`, or a message that names the path.
    pub fn read_file(&self, path: &str) -> (r: Result<String, String>)
        requires
            self.wf(),
        ensures
            match r {
                Ok(c) => self.files_view().contains_key(path@) && c@ == self.files_view()[path@],
                Err(m) => !self.files_view().contains_key(path@) && m@ == not_found_message(
                    path@,
                ),
            },
    {
        match self.fs.get(path) {
            Some(c) => Ok(c),
            None => {
                let m = path.to_owned().concat(" does not exist");
                Err(m)
            },
        }
    }
}

} // verus!

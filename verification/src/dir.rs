//! A directory of flat artifact files, modelled as a list of entries with
//! pairwise distinct names and read as a map from filename to content.

use vstd::prelude::*;
use vstd::pervasive::VecAdditionalExecFns;

verus! {

/// One artifact of a directory: a flat filename and its full text.
#[derive(Debug, PartialEq, Eq)]
pub struct FileEntry {
    pub name: String,
    pub content: String,
}

/// A list of entries read as a map from filename to content; a later entry
/// for the same name wins.
pub open spec fn dir_map(files: Seq<FileEntry>) -> Map<Seq<char>, Seq<char>>
    decreases files.len(),
{
    if files.len() == 0 {
        Map::empty()
    } else {
        dir_map(files.drop_last()).insert(files.last().name@, files.last().content@)
    }
}

/// Filenames are pairwise distinct.
pub open spec fn distinct_names(files: Seq<FileEntry>) -> bool {
    forall|i: int, j: int| 0 <= i < j < files.len() ==> files[i].name@ != files[j].name@
}

/// A name is in the map exactly when some entry carries it.
pub proof fn lemma_dir_map_domain(files: Seq<FileEntry>, n: Seq<char>)
    ensures
        dir_map(files).contains_key(n) <==> exists|i: int|
            0 <= i < files.len() && files[i].name@ == n,
    decreases files.len(),
{
    if files.len() > 0 {
        lemma_dir_map_domain(files.drop_last(), n);
        if files.last().name@ == n {
            assert(files[files.len() - 1].name@ == n);
        } else {
            if exists|i: int| 0 <= i < files.len() && files[i].name@ == n {
                let i = choose|i: int| 0 <= i < files.len() && files[i].name@ == n;
                assert(files.drop_last()[i].name@ == n);
            }
        }
    }
}

/// With distinct names, each entry's content is what the map holds for it.
pub proof fn lemma_dir_map_lookup(files: Seq<FileEntry>, i: int)
    requires
        distinct_names(files),
        0 <= i < files.len(),
    ensures
        dir_map(files).contains_key(files[i].name@),
        dir_map(files)[files[i].name@] == files[i].content@,
    decreases files.len(),
{
    if i == files.len() - 1 {
        assert(files.last() == files[i]);
    } else {
        assert(distinct_names(files.drop_last())) by {
            assert(forall|p: int, q: int|
                0 <= p < q < files.len() - 1 ==> files.drop_last()[p].name@
                    != files.drop_last()[q].name@);
        }
        lemma_dir_map_lookup(files.drop_last(), i);
        assert(files.drop_last()[i] == files[i]);
        assert(files.last().name@ != files[i].name@);
    }
}

/// Overwriting the entry that carries a name updates the map at that name.
pub proof fn lemma_dir_map_update(files: Seq<FileEntry>, i: int, e: FileEntry)
    requires
        distinct_names(files),
        0 <= i < files.len(),
        files[i].name@ == e.name@,
    ensures
        dir_map(files.update(i, e)) == dir_map(files).insert(e.name@, e.content@),
    decreases files.len(),
{
    let g = files.update(i, e);
    if i == files.len() - 1 {
        assert(g.drop_last() =~= files.drop_last());
        assert(g.last() == e);
        assert(dir_map(g) == dir_map(files.drop_last()).insert(e.name@, e.content@));
        assert(dir_map(files.drop_last()).insert(files.last().name@, files.last().content@).insert(
            e.name@,
            e.content@,
        ) =~= dir_map(files.drop_last()).insert(e.name@, e.content@));
    } else {
        assert(distinct_names(files.drop_last())) by {
            assert(forall|p: int, q: int|
                0 <= p < q < files.len() - 1 ==> files.drop_last()[p].name@
                    != files.drop_last()[q].name@);
        }
        assert(files.drop_last()[i] == files[i]);
        lemma_dir_map_update(files.drop_last(), i, e);
        assert(g.drop_last() =~= files.drop_last().update(i, e));
        assert(g.last() == files.last());
        assert(files.last().name@ != e.name@);
        assert(dir_map(files.drop_last()).insert(e.name@, e.content@).insert(
            files.last().name@,
            files.last().content@,
        ) =~= dir_map(files.drop_last()).insert(files.last().name@, files.last().content@).insert(
            e.name@,
            e.content@,
        ));
    }
}

/// A directory of flat artifact files. No subdirectories are meaningful at
/// this layer: the schema compiler emits a flat namespace.
#[derive(Debug, PartialEq, Eq)]
pub struct DirState {
    pub files: Vec<FileEntry>,
}

impl View for DirState {
    type V = Map<Seq<char>, Seq<char>>;

    open spec fn view(&self) -> Map<Seq<char>, Seq<char>> {
        dir_map(self.files@)
    }
}

impl DirState {
    /// Names are pairwise distinct, so the list reads as a map.
    pub open spec fn wf(self) -> bool {
        distinct_names(self.files@)
    }

    /// An empty directory.
    pub fn empty() -> (r: DirState)
        ensures
            r@ == Map::<Seq<char>, Seq<char>>::empty(),
            r.wf(),
            r.files@.len() == 0,
    {
        DirState { files: Vec::new() }
    }

    /// Writes one file: overwrites the entry with this name if present,
    /// otherwise adds one.
    pub fn put(&mut self, name: String, content: String)
        requires
            old(self).wf(),
        ensures
            final(self).wf(),
            final(self)@ == old(self)@.insert(name@, content@),
    {
        let n = self.files.len();
        let mut i: usize = 0;
        while i < n
            invariant
                n == self.files@.len(),
                self.files@ == old(self).files@,
                old(self).wf(),
                forall|j: int| 0 <= j < i ==> self.files@[j].name@ != name@,
            decreases n - i,
        {
            if self.files[i].name == name {
                let e = FileEntry { name, content };
                self.files.set(i, e);
                proof {
                    let fs = old(self).files@;
                    let ge = self.files@[i as int];
                    assert(self.files@ =~= fs.update(i as int, ge));
                    lemma_dir_map_update(fs, i as int, ge);
                    assert(forall|j: int|
                        0 <= j < self.files@.len() ==> self.files@[j].name@ == fs[j].name@);
                    assert(distinct_names(self.files@));
                }
                return ;
            }
            i += 1;
        }
        let e = FileEntry { name, content };
        self.files.push(e);
        proof {
            let fs = old(self).files@;
            assert(self.files@.drop_last() =~= fs);
            assert(self.files@.last() == self.files@[fs.len() as int]);
            assert(forall|j: int| 0 <= j < fs.len() ==> self.files@[j] == fs[j]);
        }
    }

    /// Reads one file's content by name.
    pub fn get(&self, name: &String) -> (r: Option<&String>)
        requires
            self.wf(),
        ensures
            r is Some <==> self@.contains_key(name@),
            r matches Some(c) ==> self@[name@] == c@,
    {
        let mut i: usize = 0;
        while i < self.files.len()
            invariant
                self.wf(),
                0 <= i <= self.files@.len(),
                forall|j: int| 0 <= j < i ==> self.files@[j].name@ != name@,
            decreases self.files@.len() - i,
        {
            if self.files[i].name == *name {
                proof {
                    lemma_dir_map_lookup(self.files@, i as int);
                }
                return Some(&self.files[i].content);
            }
            i += 1;
        }
        proof {
            lemma_dir_map_domain(self.files@, name@);
        }
        None
    }

    /// A copy with the same entries.
    pub fn duplicate(&self) -> (r: DirState)
        ensures
            r.files@ == self.files@,
            r@ == self@,
            self.wf() ==> r.wf(),
    {
        let mut out: Vec<FileEntry> = Vec::new();
        let mut i: usize = 0;
        while i < self.files.len()
            invariant
                0 <= i <= self.files@.len(),
                out@.len() == i,
                forall|j: int| 0 <= j < i ==> out@[j] == self.files@[j],
            decreases self.files@.len() - i,
        {
            let e = FileEntry {
                name: self.files[i].name.clone(),
                content: self.files[i].content.clone(),
            };
            out.push(e);
            i += 1;
        }
        assert(out@ =~= self.files@);
        DirState { files: out }
    }

    /// Writes every emitted file into this directory, in order: each
    /// overwrites any file of the same name, as the schema compiler does when
    /// it emits into a directory that still holds earlier artifacts.
    pub fn merge_from(&mut self, files: &Vec<FileEntry>)
        requires
            old(self).wf(),
        ensures
            final(self).wf(),
            final(self)@ == spec_merge(old(self)@, files@),
    {
        let mut i: usize = 0;
        proof {
            assert(files@.take(0) =~= Seq::<FileEntry>::empty());
        }
        while i < files.len()
            invariant
                0 <= i <= files@.len(),
                self.wf(),
                self@ == spec_merge(old(self)@, files@.take(i as int)),
            decreases files@.len() - i,
        {
            proof {
                assert(files@.take(i as int + 1).drop_last() =~= files@.take(i as int));
                assert(files@.take(i as int + 1).last() == files@[i as int]);
            }
            self.put(files[i].name.clone(), files[i].content.clone());
            i += 1;
        }
        proof {
            assert(files@.take(files@.len() as int) =~= files@);
        }
    }
}

/// The directory after emitted files are written into it, in order.
pub open spec fn spec_merge(m: Map<Seq<char>, Seq<char>>, files: Seq<FileEntry>) -> Map<
    Seq<char>,
    Seq<char>,
>
    decreases files.len(),
{
    if files.len() == 0 {
        m
    } else {
        spec_merge(m, files.drop_last()).insert(files.last().name@, files.last().content@)
    }
}

} // verus!

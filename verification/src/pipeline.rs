//! The orchestrator: a fixed, ordered list of projects, each compiled into
//! one shared intermediate directory and then relocated into its own
//! destination tree. The order is a hard invariant: a later project sees
//! whatever an earlier project left in the intermediate directory.

use vstd::prelude::*;
use vstd::pervasive::VecAdditionalExecFns;
use vstd::string::*;
use crate::dir::DirState;
use crate::dir::FileEntry;
use crate::dir::spec_merge;
use crate::exclude::spec_excluded;
use crate::patch::PatchError;
use crate::patch::RegexReplace;
use crate::patch::chain_valid;
use crate::patch::regex_valid;
use crate::relocate::FileError;
use crate::relocate::discovered_from_dir;
use crate::relocate::lemma_discovered_of_dir;
use crate::relocate::relocate;
use crate::relocate::spec_dir_relocated;

verus! {

/// A whole run for one family of projects: the shared intermediate directory
/// and the ordered projects driven over it.
#[derive(Debug, PartialEq, Eq)]
pub struct RunPlan {
    pub intermediate_dir: String,
    pub projects: Vec<Project>,
}

/// One schema project: where its sources live, which packages it must not
/// own, how its artifacts are patched, what it cleans, and where its output
/// goes. Immutable once constructed.
#[derive(Debug, PartialEq, Eq)]
pub struct Project {
    pub template: String,
    pub source_root: String,
    pub schema_subdir: String,
    pub exclusions: Vec<String>,
    pub patches: Vec<RegexReplace>,
    pub clean_intermediate: bool,
    pub clean_destination: bool,
    pub destination_root: String,
}

/// What the external schema compiler did for one project: the artifacts it
/// emitted into the intermediate directory, or the failure that must abort
/// the whole run.
#[derive(Debug)]
pub enum CompilerEvent {
    Emitted(Vec<FileEntry>),
    Failed(String),
}

/// Why a run aborted: the compiler failed to run or exited nonzero; a patch
/// pattern does not compile; or a relocation batch ended with read failures.
#[derive(Debug)]
pub enum RunError {
    Compiler { template: String, message: String },
    Config(PatchError),
    Batch(Vec<FileError>),
}

/// One destination tree, named by its root path.
#[derive(Debug, PartialEq, Eq)]
pub struct WorldEntry {
    pub path: String,
    pub dir: DirState,
}

/// The destination trees as a map from root path to directory contents; a
/// later entry for the same path wins.
pub open spec fn world_map(entries: Seq<WorldEntry>) -> Map<Seq<char>, Map<Seq<char>, Seq<char>>>
    decreases entries.len(),
{
    if entries.len() == 0 {
        Map::empty()
    } else {
        world_map(entries.drop_last()).insert(entries.last().path@, entries.last().dir@)
    }
}

/// Root paths are pairwise distinct.
pub open spec fn distinct_paths(entries: Seq<WorldEntry>) -> bool {
    forall|i: int, j: int| 0 <= i < j < entries.len() ==> entries[i].path@ != entries[j].path@
}

/// A path is in the map exactly when some entry carries it.
pub proof fn lemma_world_map_domain(entries: Seq<WorldEntry>, p: Seq<char>)
    ensures
        world_map(entries).contains_key(p) <==> exists|i: int|
            0 <= i < entries.len() && entries[i].path@ == p,
    decreases entries.len(),
{
    if entries.len() > 0 {
        lemma_world_map_domain(entries.drop_last(), p);
        if entries.last().path@ == p {
            assert(entries[entries.len() - 1].path@ == p);
        } else {
            if exists|i: int| 0 <= i < entries.len() && entries[i].path@ == p {
                let i = choose|i: int| 0 <= i < entries.len() && entries[i].path@ == p;
                assert(entries.drop_last()[i].path@ == p);
            }
        }
    }
}

/// With distinct paths, each entry's directory is what the map holds for it.
pub proof fn lemma_world_map_lookup(entries: Seq<WorldEntry>, i: int)
    requires
        distinct_paths(entries),
        0 <= i < entries.len(),
    ensures
        world_map(entries).contains_key(entries[i].path@),
        world_map(entries)[entries[i].path@] == entries[i].dir@,
    decreases entries.len(),
{
    if i == entries.len() - 1 {
        assert(entries.last() == entries[i]);
    } else {
        assert(distinct_paths(entries.drop_last())) by {
            assert(forall|p: int, q: int|
                0 <= p < q < entries.len() - 1 ==> entries.drop_last()[p].path@
                    != entries.drop_last()[q].path@);
        }
        lemma_world_map_lookup(entries.drop_last(), i);
        assert(entries.drop_last()[i] == entries[i]);
        assert(entries.last().path@ != entries[i].path@);
    }
}

/// Overwriting the entry that carries a path updates the map at that path.
pub proof fn lemma_world_map_update(entries: Seq<WorldEntry>, i: int, e: WorldEntry)
    requires
        distinct_paths(entries),
        0 <= i < entries.len(),
        entries[i].path@ == e.path@,
    ensures
        world_map(entries.update(i, e)) == world_map(entries).insert(e.path@, e.dir@),
    decreases entries.len(),
{
    let g = entries.update(i, e);
    if i == entries.len() - 1 {
        assert(g.drop_last() =~= entries.drop_last());
        assert(g.last() == e);
        assert(world_map(entries.drop_last()).insert(
            entries.last().path@,
            entries.last().dir@,
        ).insert(e.path@, e.dir@) =~= world_map(entries.drop_last()).insert(e.path@, e.dir@));
    } else {
        assert(distinct_paths(entries.drop_last())) by {
            assert(forall|p: int, q: int|
                0 <= p < q < entries.len() - 1 ==> entries.drop_last()[p].path@
                    != entries.drop_last()[q].path@);
        }
        assert(entries.drop_last()[i] == entries[i]);
        lemma_world_map_update(entries.drop_last(), i, e);
        assert(g.drop_last() =~= entries.drop_last().update(i, e));
        assert(g.last() == entries.last());
        assert(entries.last().path@ != e.path@);
        assert(world_map(entries.drop_last()).insert(e.path@, e.dir@).insert(
            entries.last().path@,
            entries.last().dir@,
        ) =~= world_map(entries.drop_last()).insert(entries.last().path@, entries.last().dir@).insert(
            e.path@,
            e.dir@,
        ));
    }
}

/// All destination trees of one run, each under its root path.
#[derive(Debug, PartialEq, Eq)]
pub struct World {
    pub dirs: Vec<WorldEntry>,
}

impl View for World {
    type V = Map<Seq<char>, Map<Seq<char>, Seq<char>>>;

    open spec fn view(&self) -> Map<Seq<char>, Map<Seq<char>, Seq<char>>> {
        world_map(self.dirs@)
    }
}

/// The tree under a root path; a path never written yet reads as empty, as a
/// directory not created yet does.
pub open spec fn spec_world_get(
    w: Map<Seq<char>, Map<Seq<char>, Seq<char>>>,
    p: Seq<char>,
) -> Map<Seq<char>, Seq<char>> {
    if w.contains_key(p) {
        w[p]
    } else {
        Map::empty()
    }
}

impl World {
    /// Paths are pairwise distinct and every tree is well formed.
    pub open spec fn wf(self) -> bool {
        &&& distinct_paths(self.dirs@)
        &&& forall|i: int| 0 <= i < self.dirs@.len() ==> (#[trigger] self.dirs@[i]).dir.wf()
    }

    /// No destination tree exists yet.
    pub fn empty() -> (r: World)
        ensures
            r@ == Map::<Seq<char>, Map<Seq<char>, Seq<char>>>::empty(),
            r.wf(),
    {
        World { dirs: Vec::new() }
    }

    /// The current contents of the tree under a root path.
    pub fn get_or_empty(&self, path: &String) -> (r: DirState)
        requires
            self.wf(),
        ensures
            r.wf(),
            r@ == spec_world_get(self@, path@),
    {
        let mut i: usize = 0;
        while i < self.dirs.len()
            invariant
                self.wf(),
                0 <= i <= self.dirs@.len(),
                forall|j: int| 0 <= j < i ==> self.dirs@[j].path@ != path@,
            decreases self.dirs@.len() - i,
        {
            if self.dirs[i].path == *path {
                proof {
                    lemma_world_map_lookup(self.dirs@, i as int);
                }
                return self.dirs[i].dir.duplicate();
            }
            i += 1;
        }
        proof {
            lemma_world_map_domain(self.dirs@, path@);
        }
        DirState::empty()
    }

    /// Replaces the tree under a root path, or records it for the first time.
    pub fn put_dir(&mut self, path: String, dir: DirState)
        requires
            old(self).wf(),
            dir.wf(),
        ensures
            final(self).wf(),
            final(self)@ == old(self)@.insert(path@, dir@),
    {
        let n = self.dirs.len();
        let mut i: usize = 0;
        while i < n
            invariant
                n == self.dirs@.len(),
                self.dirs@ == old(self).dirs@,
                old(self).wf(),
                dir.wf(),
                forall|j: int| 0 <= j < i ==> self.dirs@[j].path@ != path@,
            decreases n - i,
        {
            if self.dirs[i].path == path {
                let e = WorldEntry { path, dir };
                self.dirs.set(i, e);
                proof {
                    let fs = old(self).dirs@;
                    let ge = self.dirs@[i as int];
                    assert(self.dirs@ =~= fs.update(i as int, ge));
                    lemma_world_map_update(fs, i as int, ge);
                    assert(forall|j: int|
                        0 <= j < self.dirs@.len() ==> self.dirs@[j].path@ == fs[j].path@);
                    assert(distinct_paths(self.dirs@));
                    assert(forall|j: int|
                        0 <= j < self.dirs@.len() && j != i ==> self.dirs@[j] == fs[j]);
                }
                return ;
            }
            i += 1;
        }
        let e = WorldEntry { path, dir };
        self.dirs.push(e);
        proof {
            let fs = old(self).dirs@;
            assert(self.dirs@.drop_last() =~= fs);
            assert(self.dirs@.last() == self.dirs@[fs.len() as int]);
            assert(forall|j: int| 0 <= j < fs.len() ==> self.dirs@[j] == fs[j]);
        }
    }
}

/// One project's turn: the compiler's artifacts land in the shared
/// intermediate directory on top of whatever an earlier project left there;
/// the whole intermediate directory is then relocated into this project's
/// destination tree, which is reset first when `clean_destination` is set;
/// the intermediate directory is reset afterwards when `clean_intermediate`
/// is set. A compiler failure or a configuration error aborts the run.
pub fn run_step(tmp: DirState, world: World, project: &Project, event: &CompilerEvent) -> (r:
    Result<(DirState, World), RunError>)
    requires
        tmp.wf(),
        world.wf(),
    ensures
        (event matches CompilerEvent::Failed(m) ==> (r matches Err(e) && e matches
            RunError::Compiler { template, message } && template@ == project.template@ && message@
            == m@)),
        (event matches CompilerEvent::Emitted(files) ==> ({
            let tmp1 = spec_merge(tmp@, files@);
            let ex = project.exclusions.deep_view();
            &&& (r is Ok <==> (chain_valid(project.patches@) || (forall|n: Seq<char>|
                tmp1.contains_key(n) ==> spec_excluded(n, ex))))
            &&& (r matches Ok(p) ==> {
                let dest0 = if project.clean_destination {
                    Map::<Seq<char>, Seq<char>>::empty()
                } else {
                    spec_world_get(world@, project.destination_root@)
                };
                &&& p.0.wf()
                &&& p.1.wf()
                &&& p.0@ == (if project.clean_intermediate {
                    Map::<Seq<char>, Seq<char>>::empty()
                } else {
                    tmp1
                })
                &&& p.1@ == world@.insert(
                    project.destination_root@,
                    dest0.union_prefer_right(spec_dir_relocated(tmp1, ex, project.patches@)),
                )
            })
            &&& (r matches Err(e) ==> (e matches RunError::Config(pe) && {
                &&& !chain_valid(project.patches@)
                &&& 0 <= pe.index < project.patches@.len()
                &&& !regex_valid(project.patches@[pe.index as int].regex@)
                &&& (forall|j: int| 0 <= j < pe.index ==> regex_valid(project.patches@[j].regex@))
                &&& pe.pattern@ == project.patches@[pe.index as int].regex@
            }))
        })),
{
    match event {
        CompilerEvent::Failed(m) => Err(
            RunError::Compiler { template: project.template.clone(), message: m.clone() },
        ),
        CompilerEvent::Emitted(files) => {
            let mut tmp1 = tmp;
            tmp1.merge_from(files);
            let prior = world.get_or_empty(&project.destination_root);
            let discovered = discovered_from_dir(&tmp1);
            proof {
                lemma_discovered_of_dir(
                    tmp1,
                    discovered@,
                    project.exclusions.deep_view(),
                    project.patches@,
                );
            }
            match relocate(
                &discovered,
                &project.exclusions,
                &project.patches,
                prior,
                project.clean_destination,
            ) {
                Err(e) => Err(RunError::Config(e)),
                Ok(outcome) => {
                    if outcome.failed.len() > 0 {
                        // The orchestrator aborts a run whose batch collected
                        // read failures. In this in-memory model every read
                        // succeeds, so the proof shows this cannot fire here.
                        proof {
                            assert(outcome.failed.deep_view().len() == outcome.failed@.len());
                            assert(false);
                        }
                        Err(RunError::Batch(outcome.failed))
                    } else {
                        let mut world1 = world;
                        world1.put_dir(project.destination_root.clone(), outcome.dest);
                        let tmp2 = if project.clean_intermediate {
                            DirState::empty()
                        } else {
                            tmp1
                        };
                        Ok((tmp2, world1))
                    }
                },
            }
        },
    }
}

/// Where one run of the whole pipeline ends up: the destination trees after
/// every project ran in order over the shared intermediate directory, or the
/// position of the first project whose step aborted the run.
pub open spec fn spec_pipeline(
    projects: Seq<Project>,
    events: Seq<CompilerEvent>,
    tmp: Map<Seq<char>, Seq<char>>,
    world: Map<Seq<char>, Map<Seq<char>, Seq<char>>>,
) -> Result<Map<Seq<char>, Map<Seq<char>, Seq<char>>>, int>
    decreases projects.len(),
{
    if projects.len() == 0 {
        Ok(world)
    } else {
        match events[0] {
            CompilerEvent::Failed(_) => Err(0),
            CompilerEvent::Emitted(files) => {
                let p = projects[0];
                let tmp1 = spec_merge(tmp, files@);
                let ex = p.exclusions.deep_view();
                if !(chain_valid(p.patches@) || (forall|n: Seq<char>|
                    tmp1.contains_key(n) ==> spec_excluded(n, ex))) {
                    Err(0)
                } else {
                    let dest0 = if p.clean_destination {
                        Map::<Seq<char>, Seq<char>>::empty()
                    } else {
                        spec_world_get(world, p.destination_root@)
                    };
                    let world1 = world.insert(
                        p.destination_root@,
                        dest0.union_prefer_right(spec_dir_relocated(tmp1, ex, p.patches@)),
                    );
                    let tmp2 = if p.clean_intermediate {
                        Map::<Seq<char>, Seq<char>>::empty()
                    } else {
                        tmp1
                    };
                    match spec_pipeline(projects.skip(1), events.skip(1), tmp2, world1) {
                        Ok(w) => Ok(w),
                        Err(i) => Err(1 + i),
                    }
                }
            },
        }
    }
}

/// Runs every project in order over one shared intermediate directory,
/// aborting on the first compiler failure or configuration error and
/// reporting which project aborted.
#[verifier::loop_isolation(false)]
pub fn run_pipeline(
    projects: &Vec<Project>,
    events: &Vec<CompilerEvent>,
    tmp: DirState,
    world: World,
) -> (r: Result<World, (usize, RunError)>)
    requires
        projects@.len() == events@.len(),
        tmp.wf(),
        world.wf(),
    ensures
        r matches Ok(w) ==> w.wf() && spec_pipeline(projects@, events@, tmp@, world@) == Ok::<
            _,
            int,
        >(w@),
        r matches Err(p) ==> spec_pipeline(projects@, events@, tmp@, world@) == Err::<
            Map<Seq<char>, Map<Seq<char>, Seq<char>>>,
            int,
        >(p.0 as int),
{
    let ghost tmp0 = tmp@;
    let ghost world0 = world@;
    let mut tmp_cur = tmp;
    let mut world_cur = world;
    let mut k: usize = 0;
    proof {
        assert(projects@.skip(0) =~= projects@);
        assert(events@.skip(0) =~= events@);
    }
    while k < projects.len()
        invariant
            projects@.len() == events@.len(),
            0 <= k <= projects@.len(),
            tmp_cur.wf(),
            world_cur.wf(),
            (spec_pipeline(projects@.skip(k as int), events@.skip(k as int), tmp_cur@, world_cur@)
                matches Ok(w) ==> spec_pipeline(projects@, events@, tmp0, world0) == Ok::<_, int>(
                w,
            )),
            (spec_pipeline(projects@.skip(k as int), events@.skip(k as int), tmp_cur@, world_cur@)
                matches Err(i) ==> spec_pipeline(projects@, events@, tmp0, world0) == Err::<
                Map<Seq<char>, Map<Seq<char>, Seq<char>>>,
                int,
            >(k + i)),
        decreases projects@.len() - k,
    {
        let ghost pre_projects = projects@.skip(k as int);
        let ghost pre_events = events@.skip(k as int);
        proof {
            assert(pre_projects[0] == projects@[k as int]);
            assert(pre_events[0] == events@[k as int]);
            assert(pre_projects.skip(1) =~= projects@.skip(k as int + 1));
            assert(pre_events.skip(1) =~= events@.skip(k as int + 1));
        }
        let ghost gtmp = tmp_cur@;
        let ghost gworld = world_cur@;
        let step = run_step(tmp_cur, world_cur, &projects[k], &events[k]);
        match step {
            Ok(pair) => {
                tmp_cur = pair.0;
                world_cur = pair.1;
                k += 1;
            },
            Err(e) => {
                proof {
                    if pre_events[0] is Emitted {
                        let files = pre_events[0]->Emitted_0;
                        let tmp1 = spec_merge(gtmp, files@);
                        let ex = projects@[k as int].exclusions.deep_view();
                        assert(!(chain_valid(projects@[k as int].patches@) || (forall|
                            n: Seq<char>,
                        |
                            tmp1.contains_key(n) ==> spec_excluded(n, ex))));
                    }
                    assert(spec_pipeline(pre_projects, pre_events, gtmp, gworld) == Err::<
                        Map<Seq<char>, Map<Seq<char>, Seq<char>>>,
                        int,
                    >(0));
                    assert(spec_pipeline(projects@, events@, tmp0, world0) == Err::<
                        Map<Seq<char>, Map<Seq<char>, Seq<char>>>,
                        int,
                    >(k as int));
                }
                return Err((k, e));
            },
        }
    }
    proof {
        assert(projects@.skip(k as int) =~= Seq::<Project>::empty());
        assert(events@.skip(k as int) =~= Seq::<CompilerEvent>::empty());
    }
    Ok(world_cur)
}

/// The argument vector of one compiler invocation: the generation template,
/// the output directory, and the schema source path, in the fixed shape the
/// external tool expects.
pub fn buf_args(template: &str, proto_path: &str, out_dir: &str) -> (r: Vec<String>)
    ensures
        r@.len() == 7,
        r@[0]@ == "generate"@,
        r@[1]@ == "--template"@,
        r@[2]@ == template@,
        r@[3]@ == "--include-imports"@,
        r@[4]@ == "-o"@,
        r@[5]@ == out_dir@,
        r@[6]@ == proto_path@,
{
    let mut r: Vec<String> = Vec::new();
    r.push(String::from_str("generate"));
    r.push(String::from_str("--template"));
    r.push(String::from_str(template));
    r.push(String::from_str("--include-imports"));
    r.push(String::from_str("-o"));
    r.push(String::from_str(out_dir));
    r.push(String::from_str(proto_path));
    r
}

/// A project's step rewrites only its own destination tree: every other
/// destination — in particular one an earlier project already wrote — is left
/// exactly as it was.
pub proof fn lemma_step_keeps_other_destinations(
    world: Map<Seq<char>, Map<Seq<char>, Seq<char>>>,
    destination_root: Seq<char>,
    written: Map<Seq<char>, Seq<char>>,
    other: Seq<char>,
)
    requires
        other != destination_root,
    ensures
        spec_world_get(world.insert(destination_root, written), other) == spec_world_get(
            world,
            other,
        ),
{
}

} // verus!

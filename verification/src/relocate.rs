//! The relocation step: every artifact discovered under the intermediate
//! directory is filtered, patched and written into the destination tree;
//! per-file read failures are collected rather than aborting the batch.

use vstd::prelude::*;
use crate::dir::DirState;
use crate::exclude::is_excluded;
use crate::exclude::spec_excluded;
use crate::patch::PatchError;
use crate::patch::RegexReplace;
use crate::patch::chain_valid;
use crate::patch::patch_content;
use crate::patch::regex_valid;
use crate::patch::spec_patch_engine;

verus! {

/// One artifact found under the intermediate directory, with the outcome of
/// reading it: its full text, or the I/O error message.
#[derive(Debug, PartialEq, Eq)]
pub struct Discovered {
    pub name: String,
    pub content: Result<String, String>,
}

/// One artifact whose read failed during a relocation batch.
#[derive(Debug, PartialEq, Eq)]
pub struct FileError {
    pub name: String,
    pub message: String,
}

impl DeepView for FileError {
    type V = (Seq<char>, Seq<char>);

    open spec fn deep_view(&self) -> (Seq<char>, Seq<char>) {
        (self.name@, self.message@)
    }
}

/// What a relocation batch leaves behind: the destination tree as written,
/// and every read failure encountered; the batch attempts every file, and the
/// caller aborts afterwards when `failed` is not empty.
#[derive(Debug, PartialEq, Eq)]
pub struct RelocateOutcome {
    pub dest: DirState,
    pub failed: Vec<FileError>,
}

/// Discovered filenames are pairwise distinct, as the files of one directory
/// are.
pub open spec fn distinct_discovered(files: Seq<Discovered>) -> bool {
    forall|i: int, j: int| 0 <= i < j < files.len() ==> files[i].name@ != files[j].name@
}

/// A read failure that the batch reports: the file is not excluded, and its
/// content could not be read.
pub open spec fn spec_read_failure(d: Discovered, ex: Seq<Seq<char>>) -> bool {
    !spec_excluded(d.name@, ex) && d.content is Err
}

/// The read failures of a batch, in discovery order: name and error message
/// of each non-excluded file whose read failed.
pub open spec fn spec_failed_reads(files: Seq<Discovered>, ex: Seq<Seq<char>>) -> Seq<
    (Seq<char>, Seq<char>),
>
    decreases files.len(),
{
    if files.len() == 0 {
        Seq::empty()
    } else {
        let rest = spec_failed_reads(files.drop_last(), ex);
        if spec_read_failure(files.last(), ex) {
            rest.push((files.last().name@, files.last().content->Err_0@))
        } else {
            rest
        }
    }
}

/// Some discovered file carries this name and was read successfully.
pub open spec fn spec_ok_name(files: Seq<Discovered>, n: Seq<char>) -> bool {
    exists|j: int| 0 <= j < files.len() && files[j].name@ == n && files[j].content is Ok
}

/// The content read for the file carrying this name.
pub open spec fn spec_content_of(files: Seq<Discovered>, n: Seq<char>) -> Seq<char> {
    let j = choose|j: int| 0 <= j < files.len() && files[j].name@ == n && files[j].content is Ok;
    files[j].content->Ok_0@
}

/// The files a relocation batch writes: every non-excluded, successfully read
/// artifact, under its own name, with the patch engine applied to its text.
pub open spec fn spec_relocated_map(
    files: Seq<Discovered>,
    ex: Seq<Seq<char>>,
    rules: Seq<RegexReplace>,
) -> Map<Seq<char>, Seq<char>> {
    Map::new(
        |n: Seq<char>| spec_ok_name(files, n) && !spec_excluded(n, ex),
        |n: Seq<char>| spec_patch_engine(rules, spec_content_of(files, n)),
    )
}

/// Some artifact actually reaches the patch engine: only then can a bad
/// pattern surface as a configuration error.
pub open spec fn spec_triggers_patch(files: Seq<Discovered>, ex: Seq<Seq<char>>) -> bool {
    exists|j: int|
        0 <= j < files.len() && !spec_excluded(files[j].name@, ex) && files[j].content is Ok
}

/// Appending a file that writes nothing (excluded, or unreadable) leaves the
/// relocated map unchanged.
proof fn lemma_relocated_map_skip(
    files: Seq<Discovered>,
    d: Discovered,
    ex: Seq<Seq<char>>,
    rules: Seq<RegexReplace>,
)
    requires
        distinct_discovered(files.push(d)),
        spec_excluded(d.name@, ex) || d.content is Err,
    ensures
        spec_relocated_map(files.push(d), ex, rules) == spec_relocated_map(files, ex, rules),
{
    let g = files.push(d);
    let m1 = spec_relocated_map(g, ex, rules);
    let m0 = spec_relocated_map(files, ex, rules);
    assert forall|n: Seq<char>| m1.dom().contains(n) implies m0.dom().contains(n) && m1[n] == m0[n]
        by {
        let j = choose|j: int| 0 <= j < g.len() && g[j].name@ == n && g[j].content is Ok;
        assert(0 <= j < files.len() && files[j] == g[j]);
        assert(spec_ok_name(files, n));
        let jf = choose|j: int|
            0 <= j < files.len() && files[j].name@ == n && files[j].content is Ok;
        assert(g[jf] == files[jf]);
        let jg = choose|j: int| 0 <= j < g.len() && g[j].name@ == n && g[j].content is Ok;
        assert(g[jg].name@ == n && g[jf].name@ == n);
        assert(jg < files.len());
        assert(jg == jf);
    }
    assert forall|n: Seq<char>| m0.dom().contains(n) implies m1.dom().contains(n) by {
        let j = choose|j: int|
            0 <= j < files.len() && files[j].name@ == n && files[j].content is Ok;
        assert(g[j] == files[j]);
        assert(spec_ok_name(g, n));
    }
    assert(m1 =~= m0);
}

/// Appending a non-excluded, successfully read file adds exactly its patched
/// content to the relocated map.
proof fn lemma_relocated_map_write(
    files: Seq<Discovered>,
    d: Discovered,
    ex: Seq<Seq<char>>,
    rules: Seq<RegexReplace>,
)
    requires
        distinct_discovered(files.push(d)),
        !spec_excluded(d.name@, ex),
        d.content is Ok,
    ensures
        spec_relocated_map(files.push(d), ex, rules) == spec_relocated_map(
            files,
            ex,
            rules,
        ).insert(d.name@, spec_patch_engine(rules, d.content->Ok_0@)),
{
    let g = files.push(d);
    let m1 = spec_relocated_map(g, ex, rules);
    let m0 = spec_relocated_map(files, ex, rules).insert(
        d.name@,
        spec_patch_engine(rules, d.content->Ok_0@),
    );
    assert(g[files.len() as int] == d);
    assert forall|n: Seq<char>| m1.dom().contains(n) implies m0.dom().contains(n) && m1[n] == m0[n]
        by {
        let jg = choose|j: int| 0 <= j < g.len() && g[j].name@ == n && g[j].content is Ok;
        if n == d.name@ {
            assert(jg == files.len() as int) by {
                if jg < files.len() {
                    assert(g[jg].name@ != g[files.len() as int].name@);
                }
            }
            assert(spec_content_of(g, n) == d.content->Ok_0@);
        } else {
            assert(jg < files.len() && files[jg] == g[jg]);
            assert(spec_ok_name(files, n));
            let jf = choose|j: int|
                0 <= j < files.len() && files[j].name@ == n && files[j].content is Ok;
            assert(g[jf] == files[jf]);
            assert(jg == jf);
        }
    }
    assert forall|n: Seq<char>| m0.dom().contains(n) implies m1.dom().contains(n) by {
        if n == d.name@ {
            assert(g[files.len() as int].name@ == n && g[files.len() as int].content is Ok);
            assert(spec_ok_name(g, n));
        } else {
            let j = choose|j: int|
                0 <= j < files.len() && files[j].name@ == n && files[j].content is Ok;
            assert(g[j] == files[j]);
            assert(spec_ok_name(g, n));
        }
    }
    assert(m1 =~= m0);
}

/// One relocation batch. Every discovered file is attempted: an excluded file
/// is dropped silently; a file whose read failed is recorded in `failed` and
/// processing goes on; every other file is patched and written into the
/// destination under its own name. When `clean_destination` is set the prior
/// destination tree is discarded first. The batch fails as a whole only on a
/// configuration error: a pattern of the chain that does not compile, found
/// when the first surviving file reaches the patch engine.
pub fn relocate(
    discovered: &Vec<Discovered>,
    exclusions: &Vec<String>,
    patches: &Vec<RegexReplace>,
    prior: DirState,
    clean_destination: bool,
) -> (r: Result<RelocateOutcome, PatchError>)
    requires
        distinct_discovered(discovered@),
        prior.wf(),
    ensures
        ({
            let dest0 = if clean_destination {
                Map::<Seq<char>, Seq<char>>::empty()
            } else {
                prior@
            };
            let ex = exclusions.deep_view();
            &&& (r is Ok <==> (chain_valid(patches@) || !spec_triggers_patch(discovered@, ex)))
            &&& (r matches Ok(out) ==> {
                &&& out.dest.wf()
                &&& out.dest@ == dest0.union_prefer_right(
                    spec_relocated_map(discovered@, ex, patches@),
                )
                &&& out.failed.deep_view() == spec_failed_reads(discovered@, ex)
            })
            &&& (r matches Err(e) ==> {
                &&& !chain_valid(patches@)
                &&& spec_triggers_patch(discovered@, ex)
                &&& 0 <= e.index < patches@.len()
                &&& !regex_valid(patches@[e.index as int].regex@)
                &&& (forall|j: int| 0 <= j < e.index ==> regex_valid(patches@[j].regex@))
                &&& e.pattern@ == patches@[e.index as int].regex@
            })
        }),
{
    let mut dest = if clean_destination {
        DirState::empty()
    } else {
        prior
    };
    let mut failed: Vec<FileError> = Vec::new();
    let ghost dest0 = dest@;
    let ghost ex = exclusions.deep_view();
    proof {
        assert(discovered@.take(0) =~= Seq::<Discovered>::empty());
        assert(spec_relocated_map(discovered@.take(0), ex, patches@)
            =~= Map::<Seq<char>, Seq<char>>::empty());
        assert(dest0.union_prefer_right(Map::<Seq<char>, Seq<char>>::empty()) =~= dest0);
        assert(failed.deep_view() =~= Seq::<(Seq<char>, Seq<char>)>::empty());
    }
    let mut i: usize = 0;
    while i < discovered.len()
        invariant
            0 <= i <= discovered@.len(),
            distinct_discovered(discovered@),
            ex == exclusions.deep_view(),
            dest.wf(),
            dest@ == dest0.union_prefer_right(
                spec_relocated_map(discovered@.take(i as int), ex, patches@),
            ),
            failed.deep_view() == spec_failed_reads(discovered@.take(i as int), ex),
            chain_valid(patches@) || !spec_triggers_patch(discovered@.take(i as int), ex),
        decreases discovered@.len() - i,
    {
        let ghost pre = discovered@.take(i as int);
        let ghost post = discovered@.take(i as int + 1);
        proof {
            assert(post.drop_last() =~= pre);
            assert(post =~= pre.push(discovered@[i as int]));
            assert(post.last() == discovered@[i as int]);
            assert(distinct_discovered(post));
        }
        let d = &discovered[i];
        if !is_excluded(d.name.as_str(), exclusions) {
            match &d.content {
                Result::Ok(c) => {
                    match patch_content(patches, c.as_str()) {
                        Ok(patched) => {
                            let ghost pview = patched@;
                            dest.put(d.name.clone(), patched);
                            proof {
                                lemma_relocated_map_write(pre, discovered@[i as int], ex, patches@);
                                assert(dest0.union_prefer_right(
                                    spec_relocated_map(pre, ex, patches@),
                                ).insert(d.name@, pview) =~= dest0.union_prefer_right(
                                    spec_relocated_map(pre, ex, patches@).insert(d.name@, pview),
                                ));
                                assert(spec_failed_reads(post, ex) == spec_failed_reads(pre, ex));
                            }
                        },
                        Err(e) => {
                            proof {
                                assert(!spec_excluded(discovered@[i as int].name@, ex)
                                    && discovered@[i as int].content is Ok);
                                assert(spec_triggers_patch(discovered@, ex));
                            }
                            return Err(e);
                        },
                    }
                },
                Result::Err(m) => {
                    let ghost old_failed = failed.deep_view();
                    failed.push(FileError { name: d.name.clone(), message: m.clone() });
                    proof {
                        assert(failed.deep_view() =~= old_failed.push((d.name@, m@)));
                        assert(spec_read_failure(post.last(), ex));
                        lemma_relocated_map_skip(pre, discovered@[i as int], ex, patches@);
                        assert(!(post.last().content is Ok));
                        assert forall|j: int|
                            0 <= j < post.len() && !spec_excluded(post[j].name@, ex) implies !(
                        post[j].content is Ok) || chain_valid(patches@) by {
                            if j < pre.len() {
                                assert(pre[j] == post[j]);
                            }
                        }
                    }
                },
            }
        } else {
            proof {
                lemma_relocated_map_skip(pre, discovered@[i as int], ex, patches@);
                assert(!spec_read_failure(post.last(), ex));
                assert(spec_failed_reads(post, ex) == spec_failed_reads(pre, ex));
            }
        }
        proof {
            if !chain_valid(patches@) {
                if spec_triggers_patch(post, ex) {
                    let j = choose|j: int|
                        0 <= j < post.len() && !spec_excluded(post[j].name@, ex)
                            && post[j].content is Ok;
                    if j < pre.len() {
                        assert(pre[j] == post[j]);
                        assert(spec_triggers_patch(pre, ex));
                    }
                }
            }
        }
        i += 1;
    }
    proof {
        assert(discovered@.take(discovered@.len() as int) =~= discovered@);
    }
    Ok(RelocateOutcome { dest, failed })
}

/// With `clean_destination` set, the destination a relocation batch leaves is
/// `spec_relocated_map` of the discovered files and the configuration alone —
/// whatever the destination held before is discarded — so relocating the same
/// intermediate directory twice produces identical destination trees.
pub proof fn lemma_clean_relocation_deterministic(
    files: Seq<Discovered>,
    ex: Seq<Seq<char>>,
    rules: Seq<RegexReplace>,
)
    ensures
        Map::<Seq<char>, Seq<char>>::empty().union_prefer_right(
            spec_relocated_map(files, ex, rules),
        ) == spec_relocated_map(files, ex, rules),
{
    assert(Map::<Seq<char>, Seq<char>>::empty().union_prefer_right(
        spec_relocated_map(files, ex, rules),
    ) =~= spec_relocated_map(files, ex, rules));
}

/// With an empty exclusion set and an empty patch chain, relocation is a
/// plain copy: every successfully read artifact appears in the destination
/// under its own name, its content unchanged but for the scaffolding-marker
/// substitution — and fully unchanged when it holds no marker.
pub proof fn lemma_empty_config_copies(files: Seq<Discovered>, n: Seq<char>)
    requires
        spec_ok_name(files, n),
    ensures
        spec_relocated_map(files, Seq::empty(), Seq::empty()).contains_key(n),
        spec_relocated_map(files, Seq::empty(), Seq::empty())[n] == crate::patch::spec_scaffold(
            spec_content_of(files, n),
        ),
        !crate::patch::spec_contains(spec_content_of(files, n), crate::patch::spec_client_marker())
            ==> spec_relocated_map(files, Seq::empty(), Seq::empty())[n] == spec_content_of(
            files,
            n,
        ),
{
    assert(!spec_excluded(n, Seq::empty()));
    assert(crate::patch::spec_apply_chain(Seq::empty(), spec_content_of(files, n))
        == spec_content_of(files, n));
    if !crate::patch::spec_contains(spec_content_of(files, n), crate::patch::spec_client_marker()) {
        crate::patch::lemma_scaffold_unchanged(spec_content_of(files, n));
    }
}

/// What relocating a directory that is fully readable writes: every
/// non-excluded file of the directory, patched.
pub open spec fn spec_dir_relocated(
    dir: Map<Seq<char>, Seq<char>>,
    ex: Seq<Seq<char>>,
    rules: Seq<RegexReplace>,
) -> Map<Seq<char>, Seq<char>> {
    Map::new(
        |n: Seq<char>| dir.contains_key(n) && !spec_excluded(n, ex),
        |n: Seq<char>| spec_patch_engine(rules, dir[n]),
    )
}

/// The discovery a relocation sees when every file of a directory reads
/// successfully: one entry per file, in order, each with its content.
pub fn discovered_from_dir(d: &DirState) -> (r: Vec<Discovered>)
    ensures
        r@.len() == d.files@.len(),
        forall|j: int|
            0 <= j < r@.len() ==> {
                &&& (#[trigger] r@[j]).name@ == d.files@[j].name@
                &&& r@[j].content is Ok
                &&& r@[j].content->Ok_0@ == d.files@[j].content@
            },
{
    let mut out: Vec<Discovered> = Vec::new();
    let mut i: usize = 0;
    while i < d.files.len()
        invariant
            0 <= i <= d.files@.len(),
            out@.len() == i,
            forall|j: int|
                0 <= j < i ==> {
                    &&& (#[trigger] out@[j]).name@ == d.files@[j].name@
                    &&& out@[j].content is Ok
                    &&& out@[j].content->Ok_0@ == d.files@[j].content@
                },
        decreases d.files@.len() - i,
    {
        out.push(
            Discovered {
                name: d.files[i].name.clone(),
                content: Ok(d.files[i].content.clone()),
            },
        );
        i += 1;
    }
    out
}

/// A batch in which every read succeeded reports no failures.
proof fn lemma_failed_reads_all_ok(files: Seq<Discovered>, ex: Seq<Seq<char>>)
    requires
        forall|j: int| 0 <= j < files.len() ==> (#[trigger] files[j]).content is Ok,
    ensures
        spec_failed_reads(files, ex) == Seq::<(Seq<char>, Seq<char>)>::empty(),
    decreases files.len(),
{
    if files.len() > 0 {
        assert(forall|j: int|
            0 <= j < files.len() - 1 ==> (#[trigger] files.drop_last()[j]).content is Ok);
        lemma_failed_reads_all_ok(files.drop_last(), ex);
        assert(files.last() == files[files.len() - 1]);
        assert(!spec_read_failure(files.last(), ex));
    }
}

/// Relocating the discovery of a fully readable directory behaves as
/// `spec_dir_relocated` of the directory itself: names are distinct, no read
/// fails, and the files written are the directory's own, patched.
pub proof fn lemma_discovered_of_dir(
    d: DirState,
    disc: Seq<Discovered>,
    ex: Seq<Seq<char>>,
    rules: Seq<RegexReplace>,
)
    requires
        d.wf(),
        disc.len() == d.files@.len(),
        forall|j: int|
            0 <= j < disc.len() ==> {
                &&& (#[trigger] disc[j]).name@ == d.files@[j].name@
                &&& disc[j].content is Ok
                &&& disc[j].content->Ok_0@ == d.files@[j].content@
            },
    ensures
        distinct_discovered(disc),
        spec_failed_reads(disc, ex) == Seq::<(Seq<char>, Seq<char>)>::empty(),
        spec_relocated_map(disc, ex, rules) == spec_dir_relocated(d@, ex, rules),
        spec_triggers_patch(disc, ex) <==> !(forall|n: Seq<char>|
            d@.contains_key(n) ==> spec_excluded(n, ex)),
{
    lemma_failed_reads_all_ok(disc, ex);
    let m1 = spec_relocated_map(disc, ex, rules);
    let m0 = spec_dir_relocated(d@, ex, rules);
    assert forall|n: Seq<char>| #[trigger] m1.dom().contains(n) implies m0.dom().contains(n)
        && m1[n] == m0[n] by {
        assert(spec_ok_name(disc, n));
        let j = choose|j: int| 0 <= j < disc.len() && disc[j].name@ == n && disc[j].content is Ok;
        assert(0 <= j < disc.len() && disc[j].name@ == n && disc[j].content is Ok);
        assert(d.files@[j].name@ == n);
        crate::dir::lemma_dir_map_lookup(d.files@, j);
        assert(d@.contains_key(n));
        assert(m0.dom().contains(n));
        let jc = choose|k: int| 0 <= k < disc.len() && disc[k].name@ == n && disc[k].content is Ok;
        assert(d.files@[jc].name@ == n && d.files@[j].name@ == n);
        assert(jc == j);
        assert(spec_content_of(disc, n) == d@[n]);
        assert(m1[n] == m0[n]);
    }
    assert forall|n: Seq<char>| #[trigger] m0.dom().contains(n) implies m1.dom().contains(n) by {
        crate::dir::lemma_dir_map_domain(d.files@, n);
        let j = choose|j: int| 0 <= j < d.files@.len() && d.files@[j].name@ == n;
        assert(disc[j].name@ == n && disc[j].content is Ok);
        assert(spec_ok_name(disc, n));
    }
    assert(forall|n: Seq<char>| #[trigger] m1.dom().contains(n) ==> m0.dom().contains(n));
    assert(forall|n: Seq<char>| #[trigger] m0.dom().contains(n) ==> m1.dom().contains(n));
    assert(forall|n: Seq<char>| #[trigger] m1.dom().contains(n) ==> m1[n] == m0[n]);
    assert(m1 =~= m0);
    if spec_triggers_patch(disc, ex) {
        let j = choose|j: int|
            0 <= j < disc.len() && !spec_excluded(disc[j].name@, ex) && disc[j].content is Ok;
        crate::dir::lemma_dir_map_lookup(d.files@, j);
        assert(d@.contains_key(disc[j].name@) && !spec_excluded(disc[j].name@, ex));
    }
    if !(forall|n: Seq<char>| d@.contains_key(n) ==> spec_excluded(n, ex)) {
        let n = choose|n: Seq<char>| d@.contains_key(n) && !spec_excluded(n, ex);
        crate::dir::lemma_dir_map_domain(d.files@, n);
        let j = choose|j: int| 0 <= j < d.files@.len() && d.files@[j].name@ == n;
        assert(disc[j].name@ == n && disc[j].content is Ok);
        assert(spec_triggers_patch(disc, ex));
    }
}

} // verus!

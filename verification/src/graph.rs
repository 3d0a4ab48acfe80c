//! The build graph: files, build edges, and the links between them.
//!
//! Files and build edges live in two dense index spaces; an edge carries the
//! ids of its input and output files, a file carries the id of its producing
//! edge (at most one) and the ids of the edges that consume it.

use vstd::prelude::*;

verus! {

/// A 64-bit fingerprint summarizing a build edge's inputs and command line.
#[derive(Debug, Copy, Clone, Eq, PartialEq, Structural)]
pub struct Hash(u64);

impl Hash {
    /// The fingerprint value as a mathematical integer.
    pub closed spec fn value(&self) -> u64 {
        self.0
    }

    /// Placeholder fingerprint used before a real one has been computed.
    pub fn todo() -> (r: Self)
        ensures
            r.value() == 0,
    {
        Hash(0)
    }

    /// The stored form of the fingerprint, as written to the persistence
    /// log.
    pub fn stored(&self) -> (r: u64)
        ensures
            r == self.value(),
    {
        self.0
    }

    /// A fingerprint reloaded from its stored form.
    pub fn from_stored(v: u64) -> (h: Hash)
        ensures
            h.value() == v,
    {
        Hash(v)
    }
}

/// Identifier of a file in the graph's dense file table.
#[derive(Debug, Copy, Clone, Eq, PartialEq, Structural)]
pub struct FileId(usize);

impl FileId {
    /// The position of the file in the file table.
    pub closed spec fn idx(&self) -> int {
        self.0 as int
    }

    fn index(&self) -> (r: usize)
        ensures
            r == self.idx(),
    {
        self.0
    }
}

/// Identifier of a build edge in the graph's dense edge table.
#[derive(Debug, Copy, Clone, Eq, PartialEq, Structural)]
pub struct BuildId(usize);

impl BuildId {
    /// The position of the edge in the edge table.
    pub closed spec fn idx(&self) -> int {
        self.0 as int
    }

    fn index(&self) -> (r: usize)
        ensures
            r == self.idx(),
    {
        self.0
    }
}

/// A file known to the graph: its (canonicalized) name, the edge that
/// produces it (if any), and the edges that consume it.
#[derive(Debug)]
pub struct File {
    pub name: String,
    pub input: Option<BuildId>,
    pub dependents: Vec<BuildId>,
}

/// A source location (build file and line), for diagnostics.
#[derive(Debug)]
pub struct FileLoc {
    pub filename: std::rc::Rc<String>,
    pub line: usize,
}

/// One build edge: a command line (absent for phony edges) binding ordered
/// input files to ordered output files.
///
/// `ins` is partitioned into three contiguous regions: the first
/// `explicit_ins` entries are explicit inputs, the next `implicit_ins` are
/// implicit inputs, and the remainder are order-only inputs.  Only the first
/// two regions contribute to the fingerprint.  `outs` is partitioned into
/// `explicit_outs` explicit outputs followed by implicit outputs.
#[derive(Debug)]
pub struct Build {
    pub location: FileLoc,
    pub cmdline: Option<String>,
    pub ins: Vec<FileId>,
    pub explicit_ins: usize,
    pub implicit_ins: usize,
    pub outs: Vec<FileId>,
    pub explicit_outs: usize,
}

impl Build {
    /// The input regions are consistent with the number of inputs, the
    /// output region with the number of outputs, and there is at least one
    /// output.
    pub open spec fn regions_wf(&self) -> bool {
        &&& self.explicit_ins + self.implicit_ins <= self.ins@.len()
        &&& self.explicit_outs <= self.outs@.len()
        &&& self.outs@.len() >= 1
    }

    /// The inputs that contribute to the fingerprint: the explicit and
    /// implicit regions, excluding order-only inputs.
    pub open spec fn hashed_ins(&self) -> Seq<FileId> {
        self.ins@.take(self.explicit_ins + self.implicit_ins)
    }
}

/// Some element of `s` denotes file `f`.
pub open spec fn mentions(s: Seq<FileId>, f: int) -> bool {
    exists|i: int| 0 <= i < s.len() && #[trigger] s[i].idx() == f
}

/// No two elements of `s` denote the same file.
pub open spec fn distinct_ids(s: Seq<FileId>) -> bool {
    forall|i: int, j: int| 0 <= i < j < s.len() ==> #[trigger] s[i].idx() != #[trigger] s[j].idx()
}

/// How many elements of `s` denote file `f`.
pub open spec fn count_ids(s: Seq<FileId>, f: int) -> nat
    decreases s.len(),
{
    if s.len() == 0 {
        0
    } else {
        count_ids(s.drop_last(), f) + if s.last().idx() == f {
            1nat
        } else {
            0nat
        }
    }
}

/// The build graph proper.  Immutable after loading, except for the two
/// mutations `add_file` and `add_build`.
pub struct Graph {
    files: Vec<File>,
    builds: Vec<Build>,
}

impl Graph {
    /// The file table, as a sequence indexed by `FileId::idx`.
    pub closed spec fn files_seq(&self) -> Seq<File> {
        self.files@
    }

    /// The edge table, as a sequence indexed by `BuildId::idx`.
    pub closed spec fn builds_seq(&self) -> Seq<Build> {
        self.builds@
    }

    /// `f` denotes a file present in the file table.
    pub open spec fn valid_file(&self, f: int) -> bool {
        0 <= f < self.files_seq().len()
    }

    /// `b` denotes an edge present in the edge table.
    pub open spec fn valid_build(&self, b: int) -> bool {
        0 <= b < self.builds_seq().len()
    }

    /// Every file id mentioned by `b` is present in this graph's file table.
    pub open spec fn build_ids_valid(&self, b: Build) -> bool {
        &&& forall|i: int| 0 <= i < b.ins@.len() ==> self.valid_file(#[trigger] b.ins@[i].idx())
        &&& forall|j: int| 0 <= j < b.outs@.len() ==> self.valid_file(#[trigger] b.outs@[j].idx())
    }

    /// The edge `b` lists file `f` among its outputs.
    pub open spec fn lists_out(&self, b: int, f: int) -> bool {
        exists|j: int|
            0 <= j < self.builds_seq()[b].outs@.len() && #[trigger] self.builds_seq()[b].outs@[j].idx() == f
    }

    /// The edge `b` lists file `f` among its inputs.
    pub open spec fn lists_in(&self, b: int, f: int) -> bool {
        exists|i: int|
            0 <= i < self.builds_seq()[b].ins@.len() && #[trigger] self.builds_seq()[b].ins@[i].idx() == f
    }

    /// Well-formedness of the whole graph: every id in every edge is in
    /// range, region counts are consistent, a file's producing edge and an
    /// edge's outputs agree in both directions, and a file's dependents and
    /// an edge's inputs agree in both directions.
    pub open spec fn wf(&self) -> bool {
        &&& forall|b: int| self.valid_build(b) ==> self.build_ids_valid(#[trigger] self.builds_seq()[b])
        &&& forall|b: int| self.valid_build(b) ==> (#[trigger] self.builds_seq()[b]).regions_wf()
        &&& forall|f: int|
            self.valid_file(f) ==> match (#[trigger] self.files_seq()[f]).input {
                Some(p) => self.valid_build(p.idx()) && self.lists_out(p.idx(), f),
                None => true,
            }
        &&& forall|b: int, j: int|
            self.valid_build(b) && 0 <= j < self.builds_seq()[b].outs@.len()
                ==> match self.files_seq()[#[trigger] self.builds_seq()[b].outs@[j].idx()].input {
                    Some(p) => p.idx() == b,
                    None => false,
                }
        &&& forall|f: int, k: int|
            self.valid_file(f) && 0 <= k < self.files_seq()[f].dependents@.len()
                ==> {
                    let d = #[trigger] self.files_seq()[f].dependents@[k].idx();
                    self.valid_build(d) && self.lists_in(d, f)
                }
        &&& forall|b: int, i: int|
            self.valid_build(b) && 0 <= i < self.builds_seq()[b].ins@.len()
                ==> self.depends(#[trigger] self.builds_seq()[b].ins@[i].idx(), b)
    }

    /// The file `f` records edge `b` among its dependents.
    pub open spec fn depends(&self, f: int, b: int) -> bool {
        exists|k: int|
            0 <= k < self.files_seq()[f].dependents@.len()
                && #[trigger] self.files_seq()[f].dependents@[k].idx() == b
    }

    /// An empty graph: no files, no edges.
    pub fn new() -> (g: Graph)
        ensures
            g.files_seq() =~= Seq::<File>::empty(),
            g.builds_seq() =~= Seq::<Build>::empty(),
            g.wf(),
    {
        Graph { files: Vec::new(), builds: Vec::new() }
    }

    /// Append a new file with the given name, no producer and no
    /// dependents, and return its id.
    ///
    /// Deduplication by canonicalized name is the loader's business; the
    /// graph itself only allocates the next dense id.
    pub fn add_file(&mut self, name: String) -> (id: FileId)
        ensures
            id.idx() == old(self).files_seq().len(),
            final(self).files_seq().len() == old(self).files_seq().len() + 1,
            forall|f: int| 0 <= f < old(self).files_seq().len()
                ==> #[trigger] final(self).files_seq()[f] == old(self).files_seq()[f],
            final(self).files_seq().last().name == name,
            final(self).files_seq().last().input is None,
            final(self).files_seq().last().dependents@ =~= Seq::<BuildId>::empty(),
            final(self).builds_seq() == old(self).builds_seq(),
            old(self).wf() ==> final(self).wf(),
    {
        let id = self.files.len();
        self.files.push(File { name, input: None, dependents: Vec::new() });
        proof {
            if old(self).wf() {
                assert forall|b: int| self.valid_build(b)
                    implies self.build_ids_valid(#[trigger] self.builds_seq()[b]) by {
                    assert(old(self).build_ids_valid(old(self).builds_seq()[b]));
                }
                assert forall|b: int, j: int|
                    self.valid_build(b) && 0 <= j < self.builds_seq()[b].outs@.len()
                    implies match self.files_seq()[#[trigger] self.builds_seq()[b].outs@[j].idx()].input {
                        Some(p) => p.idx() == b,
                        None => false,
                    } by {
                    assert(old(self).valid_file(old(self).builds_seq()[b].outs@[j].idx()));
                }
                assert forall|b: int, i: int|
                    self.valid_build(b) && 0 <= i < self.builds_seq()[b].ins@.len()
                    implies self.depends(#[trigger] self.builds_seq()[b].ins@[i].idx(), b) by {
                    assert(old(self).depends(old(self).builds_seq()[b].ins@[i].idx(), b));
                }
            }
        }
        FileId(id)
    }

    /// Insert a new build edge and establish the bidirectional links:
    /// every input file gains the edge as a dependent, every output file
    /// records the edge as its producer.
    ///
    /// Binding a second producing edge to a file is a load-time error
    /// (`producer_free` below); callers reject such an edge before insertion.
    pub fn add_build(&mut self, build: Build)
        requires
            old(self).wf(),
            old(self).build_ids_valid(build),
            build.regions_wf(),
            old(self).producer_free(build),
            distinct_ids(build.outs@),
        ensures
            final(self).wf(),
            final(self).builds_seq() =~= old(self).builds_seq().push(build),
            final(self).files_seq().len() == old(self).files_seq().len(),
            forall|f: int| old(self).valid_file(f)
                ==> #[trigger] final(self).files_seq()[f].name == old(self).files_seq()[f].name,
            forall|j: int| 0 <= j < build.outs@.len()
                ==> match final(self).files_seq()[#[trigger] build.outs@[j].idx()].input {
                    Some(p) => p.idx() == old(self).builds_seq().len(),
                    None => false,
                },
            forall|f: int| old(self).valid_file(f) && !mentions(build.outs@, f)
                ==> #[trigger] final(self).files_seq()[f].input == old(self).files_seq()[f].input,
            forall|f: int| old(self).valid_file(f)
                ==> #[trigger] final(self).files_seq()[f].dependents@.len()
                    == old(self).files_seq()[f].dependents@.len() + count_ids(build.ins@, f),
            forall|f: int, k: int|
                old(self).valid_file(f) && 0 <= k < old(self).files_seq()[f].dependents@.len()
                    ==> #[trigger] final(self).files_seq()[f].dependents@[k]
                        == old(self).files_seq()[f].dependents@[k],
            forall|f: int, k: int|
                old(self).valid_file(f) && old(self).files_seq()[f].dependents@.len() <= k
                    < final(self).files_seq()[f].dependents@.len()
                    ==> #[trigger] final(self).files_seq()[f].dependents@[k].idx()
                        == old(self).builds_seq().len(),
            forall|f: int| old(self).valid_file(f) && !mentions(build.ins@, f)
                ==> #[trigger] final(self).files_seq()[f].dependents@
                    == old(self).files_seq()[f].dependents@,
    {
        let ghost nf = old(self).files_seq().len() as int;
        let ghost nb = old(self).builds_seq().len() as int;
        let id = BuildId(self.builds.len());
        let mut i: usize = 0;
        while i < build.ins.len()
            invariant
                0 <= i <= build.ins@.len(),
                id.idx() == nb,
                old(self).build_ids_valid(build),
                self.builds@ == old(self).builds@,
                self.files@.len() == nf,
                nf == old(self).files_seq().len(),
                nb == old(self).builds_seq().len(),
                forall|f: int| 0 <= f < nf
                    ==> #[trigger] self.files@[f].name == old(self).files_seq()[f].name,
                forall|f: int| 0 <= f < nf
                    ==> #[trigger] self.files@[f].input == old(self).files_seq()[f].input,
                forall|f: int| 0 <= f < nf
                    ==> #[trigger] self.files@[f].dependents@.len()
                        == old(self).files_seq()[f].dependents@.len() + count_ids(
                            build.ins@.take(i as int),
                            f,
                        ),
                forall|f: int, k: int|
                    0 <= f < nf && 0 <= k < old(self).files_seq()[f].dependents@.len()
                        ==> #[trigger] self.files@[f].dependents@[k]
                            == old(self).files_seq()[f].dependents@[k],
                forall|f: int, k: int|
                    0 <= f < nf && old(self).files_seq()[f].dependents@.len() <= k
                        < self.files@[f].dependents@.len()
                        ==> #[trigger] self.files@[f].dependents@[k].idx() == nb,
                forall|f: int| 0 <= f < nf && !mentions(build.ins@.take(i as int), f)
                    ==> #[trigger] self.files@[f].dependents@
                        == old(self).files_seq()[f].dependents@,
                forall|ii: int| 0 <= ii < i
                    ==> self.depends(#[trigger] build.ins@[ii].idx(), nb),
            decreases build.ins@.len() - i,
        {
            let inf = build.ins[i];
            proof {
                assert(inf == build.ins@[i as int]);
                assert(old(self).valid_file(build.ins@[i as int].idx()));
            }
            assert(0 <= inf.idx() < nf);
            let ghost pre = self.files@;
            self.files[inf.index()].dependents.push(id);
            proof {
                assert(forall|f: int| 0 <= f < nf && f != inf.idx()
                    ==> #[trigger] self.files@[f] == pre[f]);
                let deps = self.files@[inf.idx()].dependents@;
                assert(deps == pre[inf.idx()].dependents@.push(id));
                assert forall|f: int| 0 <= f < nf
                    implies #[trigger] self.files@[f].dependents@.len()
                        == old(self).files_seq()[f].dependents@.len() + count_ids(
                        build.ins@.take(i as int + 1),
                        f,
                    ) by {
                    assert(build.ins@.take(i as int + 1).drop_last() =~= build.ins@.take(i as int));
                    assert(build.ins@.take(i as int + 1).last() == build.ins@[i as int]);
                    if f != inf.idx() {
                        assert(self.files@[f] == pre[f]);
                    }
                }
                assert forall|f: int| 0 <= f < nf && !mentions(build.ins@.take(i as int + 1), f)
                    implies #[trigger] self.files@[f].dependents@
                        == old(self).files_seq()[f].dependents@ by {
                    assert(!mentions(build.ins@.take(i as int), f)) by {
                        if mentions(build.ins@.take(i as int), f) {
                            let ii = choose|ii: int|
                                0 <= ii < build.ins@.take(i as int).len()
                                    && #[trigger] build.ins@.take(i as int)[ii].idx() == f;
                            assert(build.ins@.take(i as int + 1)[ii].idx() == f);
                        }
                    }
                    assert(build.ins@.take(i as int + 1)[i as int].idx() == inf.idx());
                    assert(f != inf.idx());
                }
                assert forall|ii: int| 0 <= ii < i + 1
                    implies self.depends(#[trigger] build.ins@[ii].idx(), nb) by {
                    let f = build.ins@[ii].idx();
                    assert(old(self).valid_file(build.ins@[ii].idx()));
                    if ii < i {
                        let k = choose|k: int|
                            0 <= k < pre[f].dependents@.len()
                                && #[trigger] pre[f].dependents@[k].idx() == nb;
                        if f == inf.idx() {
                            assert(self.files@[f].dependents@[k] == pre[f].dependents@[k]);
                        } else {
                            assert(self.files@[f] == pre[f]);
                        }
                        assert(self.files@[f].dependents@[k].idx() == nb);
                    } else {
                        assert(f == inf.idx());
                        assert(self.files@[f].dependents@[deps.len() - 1].idx() == nb);
                    }
                }
            }
            i += 1;
        }
        proof {
            assert(build.ins@.take(build.ins@.len() as int) =~= build.ins@);
        }
        let ghost mid_files = self.files@;
        proof {
            assert(forall|f: int| 0 <= f < nf
                ==> #[trigger] mid_files[f].dependents@.len()
                    == old(self).files_seq()[f].dependents@.len() + count_ids(build.ins@, f));
        }
        let mut j: usize = 0;
        while j < build.outs.len()
            invariant
                0 <= j <= build.outs@.len(),
                id.idx() == nb,
                old(self).build_ids_valid(build),
                old(self).producer_free(build),
                distinct_ids(build.outs@),
                self.builds@ == old(self).builds@,
                self.files@.len() == nf,
                mid_files.len() == nf,
                nf == old(self).files_seq().len(),
                nb == old(self).builds_seq().len(),
                forall|f: int| 0 <= f < nf
                    ==> #[trigger] self.files@[f].name == mid_files[f].name,
                forall|f: int| 0 <= f < nf
                    ==> #[trigger] self.files@[f].dependents == mid_files[f].dependents,
                forall|jj: int| 0 <= jj < j
                    ==> match self.files@[#[trigger] build.outs@[jj].idx()].input {
                        Some(p) => p.idx() == nb,
                        None => false,
                    },
                forall|f: int| 0 <= f < nf && !mentions(build.outs@.take(j as int), f)
                    ==> #[trigger] self.files@[f].input == mid_files[f].input,
                forall|f: int| 0 <= f < nf
                    ==> #[trigger] mid_files[f].input == old(self).files_seq()[f].input,
            decreases build.outs@.len() - j,
        {
            let out = build.outs[j];
            proof {
                assert(out == build.outs@[j as int]);
                assert(old(self).valid_file(build.outs@[j as int].idx()));
            }
            assert(0 <= out.idx() < nf);
            let ghost preo = self.files@;
            self.files[out.index()].input = Some(id);
            proof {
                assert(forall|f: int| 0 <= f < nf && f != out.idx()
                    ==> #[trigger] self.files@[f] == preo[f]);
                assert(self.files@[out.idx()].input == Some(id));
                assert(self.files@[out.idx()].dependents == preo[out.idx()].dependents);
                assert(self.files@[out.idx()].name == preo[out.idx()].name);
                assert forall|f: int| 0 <= f < nf && !mentions(build.outs@.take(j as int + 1), f)
                    implies #[trigger] self.files@[f].input == mid_files[f].input by {
                    assert(!mentions(build.outs@.take(j as int), f)) by {
                        if mentions(build.outs@.take(j as int), f) {
                            let jj = choose|jj: int|
                                0 <= jj < build.outs@.take(j as int).len()
                                    && #[trigger] build.outs@.take(j as int)[jj].idx() == f;
                            assert(build.outs@.take(j as int + 1)[jj].idx() == f);
                        }
                    }
                    assert(build.outs@.take(j as int + 1)[j as int].idx() == out.idx());
                    assert(f != out.idx());
                }
                assert forall|jj: int| 0 <= jj < j + 1
                    implies match self.files@[#[trigger] build.outs@[jj].idx()].input {
                        Some(p) => p.idx() == nb,
                        None => false,
                    } by {
                    if jj < j {
                        assert(build.outs@[jj].idx() != build.outs@[j as int].idx());
                        assert(self.files@[build.outs@[jj].idx()] == preo[build.outs@[jj].idx()]);
                    }
                }
            }
            j += 1;
        }
        proof {
            assert(build.outs@.take(build.outs@.len() as int) =~= build.outs@);
        }
        self.builds.push(build);
        proof {
            assert(self.builds_seq() =~= old(self).builds_seq().push(build));
            assert(self.builds_seq()[nb] == build);
            // every well-formedness conjunct, case-split on whether the new
            // edge touches the file or edge at hand
            assert forall|b: int| self.valid_build(b)
                implies self.build_ids_valid(#[trigger] self.builds_seq()[b]) by {
                if b < nb {
                    assert(self.builds_seq()[b] == old(self).builds_seq()[b]);
                    assert(old(self).build_ids_valid(old(self).builds_seq()[b]));
                } else {
                    assert(old(self).build_ids_valid(build));
                }
            }
            assert forall|b: int| self.valid_build(b)
                implies (#[trigger] self.builds_seq()[b]).regions_wf() by {
                if b < nb {
                    assert(self.builds_seq()[b] == old(self).builds_seq()[b]);
                    assert(old(self).builds_seq()[b].regions_wf());
                }
            }
            assert forall|f: int| self.valid_file(f)
                implies match (#[trigger] self.files_seq()[f]).input {
                    Some(p) => self.valid_build(p.idx()) && self.lists_out(p.idx(), f),
                    None => true,
                } by {
                if mentions(build.outs@, f) {
                    let jj = choose|jj: int|
                        0 <= jj < build.outs@.len() && #[trigger] build.outs@[jj].idx() == f;
                    assert(match self.files_seq()[f].input {
                        Some(p) => p.idx() == nb,
                        None => false,
                    });
                    assert(self.builds_seq()[nb].outs@[jj].idx() == f);
                    assert(self.lists_out(nb, f));
                } else {
                    assert(self.files_seq()[f].input == old(self).files_seq()[f].input);
                    match old(self).files_seq()[f].input {
                        Some(p) => {
                            assert(old(self).lists_out(p.idx(), f));
                            let jj = choose|jj: int|
                                0 <= jj < old(self).builds_seq()[p.idx()].outs@.len()
                                    && #[trigger] old(self).builds_seq()[p.idx()].outs@[jj].idx() == f;
                            assert(self.builds_seq()[p.idx()] == old(self).builds_seq()[p.idx()]);
                            assert(self.builds_seq()[p.idx()].outs@[jj].idx() == f);
                            assert(self.lists_out(p.idx(), f));
                        },
                        None => {},
                    }
                }
            }
            assert forall|b: int, j2: int|
                self.valid_build(b) && 0 <= j2 < self.builds_seq()[b].outs@.len()
                implies match self.files_seq()[#[trigger] self.builds_seq()[b].outs@[j2].idx()].input {
                    Some(p) => p.idx() == b,
                    None => false,
                } by {
                if b < nb {
                    assert(self.builds_seq()[b] == old(self).builds_seq()[b]);
                    let f = old(self).builds_seq()[b].outs@[j2].idx();
                    assert(match old(self).files_seq()[f].input {
                        Some(p) => p.idx() == b,
                        None => false,
                    });
                    assert(!mentions(build.outs@, f)) by {
                        if mentions(build.outs@, f) {
                            let jj = choose|jj: int|
                                0 <= jj < build.outs@.len() && #[trigger] build.outs@[jj].idx() == f;
                            assert(old(self).files_seq()[f].input is None);
                        }
                    }
                    assert(self.files_seq()[f].input == old(self).files_seq()[f].input);
                } else {
                    assert(self.builds_seq()[b] == build);
                }
            }
            assert forall|f: int, k: int|
                self.valid_file(f) && 0 <= k < self.files_seq()[f].dependents@.len()
                implies {
                    let d = #[trigger] self.files_seq()[f].dependents@[k].idx();
                    self.valid_build(d) && self.lists_in(d, f)
                } by {
                let d = self.files_seq()[f].dependents@[k].idx();
                if k < old(self).files_seq()[f].dependents@.len() {
                    assert(self.files_seq()[f].dependents@[k]
                        == old(self).files_seq()[f].dependents@[k]);
                    assert(old(self).valid_build(d) && old(self).lists_in(d, f));
                    let ii = choose|ii: int|
                        0 <= ii < old(self).builds_seq()[d].ins@.len()
                            && #[trigger] old(self).builds_seq()[d].ins@[ii].idx() == f;
                    assert(self.builds_seq()[d] == old(self).builds_seq()[d]);
                    assert(self.builds_seq()[d].ins@[ii].idx() == f);
                    assert(self.lists_in(d, f));
                } else {
                    assert(d == nb);
                    assert(mentions(build.ins@, f)) by {
                        if !mentions(build.ins@, f) {
                            assert(self.files_seq()[f].dependents@
                                == old(self).files_seq()[f].dependents@);
                        }
                    }
                    let ii = choose|ii: int|
                        0 <= ii < build.ins@.len() && #[trigger] build.ins@[ii].idx() == f;
                    assert(self.builds_seq()[nb].ins@[ii].idx() == f);
                    assert(self.lists_in(nb, f));
                }
            }
            assert forall|b: int, i2: int|
                self.valid_build(b) && 0 <= i2 < self.builds_seq()[b].ins@.len()
                implies self.depends(#[trigger] self.builds_seq()[b].ins@[i2].idx(), b) by {
                if b < nb {
                    assert(self.builds_seq()[b] == old(self).builds_seq()[b]);
                    let f = old(self).builds_seq()[b].ins@[i2].idx();
                    assert(old(self).depends(f, b));
                    let k = choose|k: int|
                        0 <= k < old(self).files_seq()[f].dependents@.len()
                            && #[trigger] old(self).files_seq()[f].dependents@[k].idx() == b;
                    assert(self.files_seq()[f].dependents@[k].idx() == b);
                } else {
                    assert(self.builds_seq()[b] == build);
                    let f = build.ins@[i2].idx();
                    let k = choose|k: int|
                        0 <= k < mid_files[f].dependents@.len()
                            && #[trigger] mid_files[f].dependents@[k].idx() == nb;
                    assert(self.files_seq()[f].dependents@[k].idx() == nb);
                }
            }
        }
    }

    /// Merge one depfile-discovered input into edge `b`: a path already in
    /// the explicit or implicit region is dropped silently; otherwise it is
    /// appended to the implicit region and `f` gains the edge as a
    /// dependent.  The edge's fingerprint must be recomputed afterwards
    /// (`State::clear_hash`).
    pub fn discover_input(&mut self, b: BuildId, f: FileId)
        requires
            old(self).wf(),
            old(self).valid_build(b.idx()),
            old(self).valid_file(f.idx()),
        ensures
            final(self).wf(),
            final(self).files_seq().len() == old(self).files_seq().len(),
            final(self).builds_seq().len() == old(self).builds_seq().len(),
            forall|x: int| old(self).valid_file(x)
                ==> #[trigger] final(self).files_seq()[x].name == old(self).files_seq()[x].name
                    && final(self).files_seq()[x].input == old(self).files_seq()[x].input,
            forall|x: int| old(self).valid_build(x) && x != b.idx()
                ==> #[trigger] final(self).builds_seq()[x] == old(self).builds_seq()[x],
            mentions(old(self).builds_seq()[b.idx()].hashed_ins(), f.idx()) ==> *final(self)
                == *old(self),
            !mentions(old(self).builds_seq()[b.idx()].hashed_ins(), f.idx()) ==> {
                let ob = old(self).builds_seq()[b.idx()];
                let nb = final(self).builds_seq()[b.idx()];
                &&& nb.hashed_ins() == ob.hashed_ins().push(f)
                &&& nb.ins@ == ob.ins@.insert(ob.explicit_ins + ob.implicit_ins, f)
                &&& nb.implicit_ins == ob.implicit_ins + 1
                &&& nb.explicit_ins == ob.explicit_ins
                &&& nb.outs == ob.outs
                &&& nb.cmdline == ob.cmdline
                &&& final(self).files_seq()[f.idx()].dependents@
                    == old(self).files_seq()[f.idx()].dependents@.push(b)
                &&& forall|x: int| old(self).valid_file(x) && x != f.idx()
                    ==> #[trigger] final(self).files_seq()[x].dependents
                        == old(self).files_seq()[x].dependents
            },
    {
        let bi = b.index();
        let ghost ob = self.builds@[b.idx()];
        proof {
            assert(ob.regions_wf());
        }
        let ni = self.builds[bi].ins.len();
        let n = self.builds[bi].explicit_ins + self.builds[bi].implicit_ins;
        let mut i: usize = 0;
        while i < n
            invariant
                0 <= i <= n,
                *self == *old(self),
                old(self).wf(),
                bi == b.idx(),
                ob == self.builds@[b.idx()],
                0 <= b.idx() < self.builds@.len(),
                n == ob.explicit_ins + ob.implicit_ins,
                n <= ob.ins@.len(),
                forall|ii: int| 0 <= ii < i ==> #[trigger] ob.ins@[ii].idx() != f.idx(),
            decreases n - i,
        {
            if self.builds[bi].ins[i] == f {
                proof {
                    assert(ob.ins@[i as int] == f);
                    assert(ob.hashed_ins()[i as int] == ob.ins@[i as int]);
                    assert(mentions(ob.hashed_ins(), f.idx()));
                }
                return ;
            }
            proof {
                assert(ob.ins@[i as int] == self.builds@[b.idx()].ins@[i as int]);
            }
            i += 1;
        }
        proof {
            assert(!mentions(ob.hashed_ins(), f.idx())) by {
                if mentions(ob.hashed_ins(), f.idx()) {
                    let ii = choose|ii: int|
                        0 <= ii < ob.hashed_ins().len() && #[trigger] ob.hashed_ins()[ii].idx()
                            == f.idx();
                    assert(ob.hashed_ins()[ii] == ob.ins@[ii]);
                }
            }
        }
        let ghost pre_builds = self.builds@;
        let ghost pre_files = self.files@;
        self.builds[bi].ins.insert(n, f);
        let new_len = self.builds[bi].ins.len();
        proof {
            assert(new_len == ob.ins@.len() + 1);
        }
        self.builds[bi].implicit_ins = self.builds[bi].implicit_ins + 1;
        self.files[f.index()].dependents.push(b);
        proof {
            let nf = self.files@.len() as int;
            let nbuilds = self.builds@.len() as int;
            let newb = self.builds@[b.idx()];
            assert(newb.ins@ == ob.ins@.insert(n as int, f));
            assert(newb.ins@.len() == ob.ins@.len() + 1);
            assert(forall|x: int| 0 <= x < nbuilds && x != b.idx()
                ==> #[trigger] self.builds@[x] == pre_builds[x]);
            assert(forall|x: int| 0 <= x < nf && x != f.idx()
                ==> #[trigger] self.files@[x] == pre_files[x]);
            assert(self.files@[f.idx()].dependents@ == pre_files[f.idx()].dependents@.push(b));
            assert(newb.hashed_ins() =~= ob.hashed_ins().push(f)) by {
                assert forall|ii: int| 0 <= ii < n + 1
                    implies newb.ins@.take(n as int + 1)[ii] == ob.hashed_ins().push(f)[ii] by {
                    if ii < n {
                        assert(newb.ins@[ii] == ob.ins@[ii]);
                        assert(ob.hashed_ins()[ii] == ob.ins@[ii]);
                    } else {
                        assert(newb.ins@[ii] == f);
                    }
                }
            }
            // well-formedness, conjunct by conjunct
            assert forall|x: int| self.valid_build(x)
                implies self.build_ids_valid(#[trigger] self.builds_seq()[x]) by {
                if x == b.idx() {
                    assert(old(self).build_ids_valid(ob));
                    assert forall|ii: int| 0 <= ii < newb.ins@.len()
                        implies self.valid_file(#[trigger] newb.ins@[ii].idx()) by {
                        if ii < n {
                            assert(newb.ins@[ii] == ob.ins@[ii]);
                        } else if ii == n {
                            assert(newb.ins@[ii] == f);
                        } else {
                            assert(newb.ins@[ii] == ob.ins@[ii - 1]);
                        }
                    }
                } else {
                    assert(old(self).build_ids_valid(old(self).builds_seq()[x]));
                }
            }
            assert forall|x: int| self.valid_build(x)
                implies (#[trigger] self.builds_seq()[x]).regions_wf() by {
                if x != b.idx() {
                    assert(old(self).builds_seq()[x].regions_wf());
                }
            }
            assert forall|x: int| self.valid_file(x)
                implies match (#[trigger] self.files_seq()[x]).input {
                    Some(p) => self.valid_build(p.idx()) && self.lists_out(p.idx(), x),
                    None => true,
                } by {
                assert(self.files_seq()[x].input == old(self).files_seq()[x].input);
                match old(self).files_seq()[x].input {
                    Some(p) => {
                        assert(old(self).lists_out(p.idx(), x));
                        let jj = choose|jj: int|
                            0 <= jj < old(self).builds_seq()[p.idx()].outs@.len()
                                && #[trigger] old(self).builds_seq()[p.idx()].outs@[jj].idx() == x;
                        assert(self.builds_seq()[p.idx()].outs@[jj].idx() == x);
                        assert(self.lists_out(p.idx(), x));
                    },
                    None => {},
                }
            }
            assert forall|x: int, j2: int|
                self.valid_build(x) && 0 <= j2 < self.builds_seq()[x].outs@.len()
                implies match self.files_seq()[#[trigger] self.builds_seq()[x].outs@[j2].idx()].input {
                    Some(p) => p.idx() == x,
                    None => false,
                } by {
                assert(self.builds_seq()[x].outs@ == old(self).builds_seq()[x].outs@);
            }
            assert forall|x: int, k: int|
                self.valid_file(x) && 0 <= k < self.files_seq()[x].dependents@.len()
                implies {
                    let d = #[trigger] self.files_seq()[x].dependents@[k].idx();
                    self.valid_build(d) && self.lists_in(d, x)
                } by {
                let d = self.files_seq()[x].dependents@[k].idx();
                if x == f.idx() && k == pre_files[f.idx()].dependents@.len() {
                    assert(d == b.idx());
                    assert(newb.ins@[n as int].idx() == x);
                    assert(self.lists_in(d, x));
                } else {
                    assert(self.files_seq()[x].dependents@[k]
                        == old(self).files_seq()[x].dependents@[k]);
                    assert(old(self).lists_in(d, x));
                    let ii = choose|ii: int|
                        0 <= ii < old(self).builds_seq()[d].ins@.len()
                            && #[trigger] old(self).builds_seq()[d].ins@[ii].idx() == x;
                    if d == b.idx() {
                        if ii < n {
                            assert(newb.ins@[ii].idx() == x);
                        } else {
                            assert(newb.ins@[ii + 1] == ob.ins@[ii]);
                            assert(newb.ins@[ii + 1].idx() == x);
                        }
                    } else {
                        assert(self.builds_seq()[d].ins@[ii].idx() == x);
                    }
                    assert(self.lists_in(d, x));
                }
            }
            assert forall|x: int, i2: int|
                self.valid_build(x) && 0 <= i2 < self.builds_seq()[x].ins@.len()
                implies self.depends(#[trigger] self.builds_seq()[x].ins@[i2].idx(), x) by {
                let y = self.builds_seq()[x].ins@[i2].idx();
                if x == b.idx() && i2 == n {
                    assert(y == f.idx());
                    let deps = self.files_seq()[f.idx()].dependents@;
                    assert(deps[deps.len() - 1].idx() == b.idx());
                } else {
                    let oi: int = if x == b.idx() && i2 > n {
                        i2 - 1
                    } else {
                        i2
                    };
                    assert(self.builds_seq()[x].ins@[i2] == old(self).builds_seq()[x].ins@[oi]);
                    assert(old(self).depends(y, x));
                    let k = choose|k: int|
                        0 <= k < old(self).files_seq()[y].dependents@.len()
                            && #[trigger] old(self).files_seq()[y].dependents@[k].idx() == x;
                    assert(self.files_seq()[y].dependents@[k].idx() == x);
                }
            }
        }
    }

    /// Every output of `build` is still unproduced in this graph.
    pub open spec fn producer_free(&self, build: Build) -> bool {
        forall|j: int| 0 <= j < build.outs@.len()
            ==> self.files_seq()[#[trigger] build.outs@[j].idx()].input is None
    }

    /// Number of files in the graph.
    pub fn num_files(&self) -> (r: usize)
        ensures
            r == self.files_seq().len(),
    {
        self.files.len()
    }

    /// Number of build edges in the graph.
    pub fn num_builds(&self) -> (r: usize)
        ensures
            r == self.builds_seq().len(),
    {
        self.builds.len()
    }

    /// Look up a file by id.
    pub fn file(&self, id: FileId) -> (r: &File)
        requires
            self.valid_file(id.idx()),
        ensures
            *r == self.files_seq()[id.idx()],
    {
        &self.files[id.index()]
    }

    /// Look up a build edge by id.
    pub fn build(&self, id: BuildId) -> (r: &Build)
        requires
            self.valid_build(id.idx()),
        ensures
            *r == self.builds_seq()[id.idx()],
    {
        &self.builds[id.index()]
    }
}


pub const UNIT_SEPARATOR: u8 = 0x1F;

/// A file's modification time, at one-second granularity: either the file
/// is missing, or it carries a stamp.
#[derive(Copy, Clone, Debug, PartialEq, Eq, Structural)]
pub enum MTime {
    Missing,
    Stamp(u32),
}

/// The word that a file's mtime contributes to the fingerprint stream.
/// A missing file contributes 0 and a present file `stamp + 1`, so that
/// "missing" and "stamp = 0" never collide.
pub open spec fn mtime_word(m: Option<MTime>) -> u64 {
    match m {
        Some(MTime::Missing) => 0,
        Some(MTime::Stamp(t)) => (t + 1) as u64,
        None => 0,
    }
}

/// Per-run mutable state of one file.
#[derive(Copy, Clone, Debug)]
pub struct FileState {
    /// Set by the once-per-run stat; used by downstream edges to compute
    /// their fingerprint.
    pub mtime: Option<MTime>,
    /// Fingerprint cached after first computation.
    pub hash: Option<Hash>,
}

impl FileState {
    fn empty() -> (r: FileState)
        ensures
            r.mtime is None,
            r.hash is None,
    {
        FileState { mtime: None, hash: None }
    }
}

/// The byte record one input contributes to the fingerprint stream: the
/// file's name bytes, the encoded mtime word (little-endian), and a single
/// separator byte.
pub open spec fn input_record(files: Seq<File>, states: Seq<FileState>, id: FileId) -> Seq<u8> {
    vstd::utf8::encode_utf8(files[id.idx()].name@)
        + vstd::bytes::spec_u64_to_le_bytes(mtime_word(states[id.idx()].mtime)) + seq![UNIT_SEPARATOR]
}

/// The concatenated records of the given inputs, in order.
pub open spec fn ins_stream(files: Seq<File>, states: Seq<FileState>, ids: Seq<FileId>) -> Seq<u8>
    decreases ids.len(),
{
    if ids.len() == 0 {
        Seq::empty()
    } else {
        ins_stream(files, states, ids.drop_last()) + input_record(files, states, ids.last())
    }
}

/// The command-line bytes hashed after the inputs; a phony edge (no
/// command) contributes the empty byte string.
pub open spec fn cmd_bytes(cmd: Option<String>) -> Seq<u8> {
    match cmd {
        Some(c) => vstd::utf8::encode_utf8(c@),
        None => Seq::empty(),
    }
}

/// The canonical byte stream hashed for edge `b`: one record per input in
/// the explicit and implicit regions (order-only inputs excluded), followed
/// by the command-line bytes.
pub open spec fn edge_stream(files: Seq<File>, states: Seq<FileState>, b: Build) -> Seq<u8> {
    ins_stream(files, states, b.hashed_ins()) + cmd_bytes(b.cmdline)
}

/// The fingerprint of edge `b`: the stream hash of its canonical byte
/// stream.
pub open spec fn fingerprint(files: Seq<File>, states: Seq<FileState>, b: Build) -> u64 {
    crate::hash::fnv1a(edge_stream(files, states, b))
}

/// An edge is clean with respect to a previously persisted fingerprint iff
/// that fingerprint exists and equals the freshly computed one.  (Missing
/// output files force a dirty edge separately, before this comparison.)
pub open spec fn clean_fingerprint(
    last: Option<Hash>,
    files: Seq<File>,
    states: Seq<FileState>,
    b: Build,
) -> bool {
    match last {
        Some(h) => h.value() == fingerprint(files, states, b),
        None => false,
    }
}

/// Per-run mutable state: one `FileState` per file and the memoized
/// fingerprint of each edge.
pub struct State {
    files: Vec<FileState>,
    builds: Vec<Option<Hash>>,
}

impl State {
    /// The per-file states, indexed by `FileId::idx`.
    pub closed spec fn files_seq(&self) -> Seq<FileState> {
        self.files@
    }

    /// The memoized per-edge fingerprints, indexed by `BuildId::idx`.
    pub closed spec fn hashes_seq(&self) -> Seq<Option<Hash>> {
        self.builds@
    }

    /// This state covers the files and edges of `graph`.
    pub open spec fn covers(&self, graph: &Graph) -> bool {
        &&& self.files_seq().len() == graph.files_seq().len()
        &&& self.hashes_seq().len() == graph.builds_seq().len()
    }

    /// Every file in `ids` has been statted in this state.
    pub open spec fn statted(&self, ids: Seq<FileId>) -> bool {
        forall|i: int|
            0 <= i < ids.len() ==> self.files_seq()[#[trigger] ids[i].idx()].mtime is Some
    }

    /// Fresh state for a run over `graph`: no file statted, no fingerprint
    /// computed.
    pub fn new(graph: &Graph) -> (s: State)
        ensures
            s.covers(graph),
            forall|f: int| 0 <= f < s.files_seq().len()
                ==> (#[trigger] s.files_seq()[f]).mtime is None && s.files_seq()[f].hash is None,
            forall|b: int| 0 <= b < s.hashes_seq().len() ==> #[trigger] s.hashes_seq()[b] is None,
    {
        let nf = graph.num_files();
        let nb = graph.num_builds();
        let mut files: Vec<FileState> = Vec::new();
        let mut i: usize = 0;
        while i < nf
            invariant
                files@.len() == i,
                i <= nf,
                forall|f: int| 0 <= f < i
                    ==> (#[trigger] files@[f]).mtime is None && files@[f].hash is None,
            decreases nf - i,
        {
            files.push(FileState::empty());
            i += 1;
        }
        let mut builds: Vec<Option<Hash>> = Vec::new();
        let mut j: usize = 0;
        while j < nb
            invariant
                builds@.len() == j,
                j <= nb,
                forall|b: int| 0 <= b < j ==> #[trigger] builds@[b] is None,
            decreases nb - j,
        {
            builds.push(None);
            j += 1;
        }
        State { files, builds }
    }

    /// Read one file's per-run state.
    pub fn file(&self, id: FileId) -> (r: &FileState)
        requires
            0 <= id.idx() < self.files_seq().len(),
        ensures
            *r == self.files_seq()[id.idx()],
    {
        &self.files[id.index()]
    }

    /// Mutable access to one file's per-run state.
    pub fn file_mut(&mut self, id: FileId) -> (r: &mut FileState)
        requires
            0 <= id.idx() < old(self).files_seq().len(),
        ensures
            *r == old(self).files_seq()[id.idx()],
            final(self).files_seq() == old(self).files_seq().update(id.idx(), *final(r)),
            final(self).hashes_seq() == old(self).hashes_seq(),
    {
        &mut self.files[id.index()]
    }

    /// Record the result of the once-per-run stat of file `id`.  Statting
    /// the same file twice in one run is a programming error: the
    /// precondition rejects it, so no verified caller can double-stat.
    pub fn record_stat(&mut self, id: FileId, mtime: MTime)
        requires
            0 <= id.idx() < old(self).files_seq().len(),
            old(self).files_seq()[id.idx()].mtime is None,
        ensures
            final(self).files_seq() =~= old(self).files_seq().update(
                id.idx(),
                (FileState { mtime: Some(mtime), hash: old(self).files_seq()[id.idx()].hash }),
            ),
            final(self).files_seq()[id.idx()].mtime == Some(mtime),
            final(self).hashes_seq() == old(self).hashes_seq(),
    {
        self.files[id.index()].mtime = Some(mtime);
    }

    /// Invalidate a file's stat after its producing edge has run, so the
    /// fresh output can be statted again: the one sanctioned transition
    /// back to "not statted" within a run, and the only way an output
    /// reaches its second (post-build) stat.
    pub fn invalidate_stat(&mut self, id: FileId)
        requires
            0 <= id.idx() < old(self).files_seq().len(),
        ensures
            final(self).files_seq() =~= old(self).files_seq().update(
                id.idx(),
                (FileState { mtime: None, hash: old(self).files_seq()[id.idx()].hash }),
            ),
            final(self).hashes_seq() == old(self).hashes_seq(),
    {
        self.files[id.index()].mtime = None;
    }

    /// Forget the memoized fingerprint of edge `id`, so that the next
    /// `hash` recomputes it.  Used after a depfile merge extends the
    /// edge's implicit inputs.
    pub fn clear_hash(&mut self, id: BuildId)
        requires
            0 <= id.idx() < old(self).hashes_seq().len(),
        ensures
            final(self).files_seq() == old(self).files_seq(),
            final(self).hashes_seq() =~= old(self).hashes_seq().update(id.idx(), None),
    {
        self.builds[id.index()] = None;
    }

    /// The memoized fingerprint of edge `id`, if one has been computed
    /// this run.
    pub fn get_hash(&self, id: BuildId) -> (r: Option<Hash>)
        requires
            0 <= id.idx() < self.hashes_seq().len(),
        ensures
            r == self.hashes_seq()[id.idx()],
    {
        self.builds[id.index()]
    }

    /// The fingerprint of edge `id`, computed on first use and memoized:
    /// a second call in the same run returns the cached value.
    pub fn hash(&mut self, graph: &Graph, id: BuildId) -> (r: Hash)
        requires
            graph.wf(),
            old(self).covers(graph),
            0 <= id.idx() < graph.builds_seq().len(),
            old(self).hashes_seq()[id.idx()] is None
                ==> old(self).statted(graph.builds_seq()[id.idx()].hashed_ins()),
        ensures
            final(self).files_seq() == old(self).files_seq(),
            final(self).covers(graph),
            match old(self).hashes_seq()[id.idx()] {
                Some(h) => r == h && final(self).hashes_seq() == old(self).hashes_seq(),
                None => {
                    &&& r.value() == fingerprint(
                        graph.files_seq(),
                        old(self).files_seq(),
                        graph.builds_seq()[id.idx()],
                    )
                    &&& final(self).hashes_seq() =~= old(self).hashes_seq().update(
                        id.idx(),
                        Some(r),
                    )
                },
            },
    {
        match self.get_hash(id) {
            Some(hash) => hash,
            None => {
                let hash = self.do_hash(graph, id);
                self.builds[id.index()] = Some(hash);
                hash
            },
        }
    }

    /// Compute the fingerprint of edge `id` from the canonical byte
    /// stream: for each input in the explicit and implicit regions, the
    /// file's name bytes, its encoded mtime word and a separator byte;
    /// then the command-line bytes.
    fn do_hash(&self, graph: &Graph, id: BuildId) -> (r: Hash)
        requires
            graph.wf(),
            self.covers(graph),
            0 <= id.idx() < graph.builds_seq().len(),
            self.statted(graph.builds_seq()[id.idx()].hashed_ins()),
        ensures
            r.value() == fingerprint(
                graph.files_seq(),
                self.files_seq(),
                graph.builds_seq()[id.idx()],
            ),
    {
        let build = graph.build(id);
        let ghost gb = graph.builds_seq()[id.idx()];
        proof {
            assert(graph.builds_seq()[id.idx()].regions_wf());
        }
        let ni = build.ins.len();
        proof {
            assert(gb.regions_wf());
            assert(gb.explicit_ins + gb.implicit_ins <= ni);
        }
        let n = build.explicit_ins + build.implicit_ins;
        proof {
            assert(gb.hashed_ins().len() == n);
        }
        let mut buf: Vec<u8> = Vec::new();
        let mut i: usize = 0;
        while i < n
            invariant
                0 <= i <= n,
                graph.wf(),
                self.covers(graph),
                0 <= id.idx() < graph.builds_seq().len(),
                self.statted(gb.hashed_ins()),
                gb == graph.builds_seq()[id.idx()],
                *build == gb,
                gb.regions_wf(),
                n == gb.explicit_ins + gb.implicit_ins,
                gb.hashed_ins().len() == n,
                buf@ == ins_stream(
                    graph.files_seq(),
                    self.files_seq(),
                    gb.hashed_ins().take(i as int),
                ),
            decreases n - i,
        {
            let fid = build.ins[i];
            proof {
                assert(gb.hashed_ins()[i as int] == gb.ins@[i as int]);
                assert(graph.build_ids_valid(graph.builds_seq()[id.idx()]));
                assert(graph.valid_file(gb.ins@[i as int].idx()));
                assert(self.files_seq()[gb.hashed_ins()[i as int].idx()].mtime is Some);
            }
            let file = graph.file(fid);
            let mut name_bytes = file.name.as_str().as_bytes_vec();
            buf.append(&mut name_bytes);
            let word: u64 = match self.file(fid).mtime.unwrap() {
                MTime::Missing => 0,
                MTime::Stamp(t) => t as u64 + 1,
            };
            let mut word_bytes = vstd::bytes::u64_to_le_bytes(word);
            buf.append(&mut word_bytes);
            buf.push(UNIT_SEPARATOR);
            proof {
                let taken = gb.hashed_ins().take(i as int + 1);
                assert(taken.drop_last() =~= gb.hashed_ins().take(i as int));
                assert(taken.last() == gb.hashed_ins()[i as int]);
                assert(word == mtime_word(self.files_seq()[gb.hashed_ins()[i as int].idx()].mtime));
                assert(buf@ =~= ins_stream(
                    graph.files_seq(),
                    self.files_seq(),
                    gb.hashed_ins().take(i as int),
                ) + input_record(graph.files_seq(), self.files_seq(), gb.hashed_ins()[i as int]));
            }
            i += 1;
        }
        proof {
            assert(gb.hashed_ins().take(n as int) =~= gb.hashed_ins());
        }
        let h = match &build.cmdline {
            Some(c) => {
                let mut cb = c.as_str().as_bytes_vec();
                buf.append(&mut cb);
                proof {
                    assert(buf@ == edge_stream(graph.files_seq(), self.files_seq(), gb));
                }
                crate::hash::fnv1a_hash(buf.as_slice())
            },
            None => {
                proof {
                    assert(cmd_bytes(gb.cmdline) =~= Seq::<u8>::empty());
                    assert(buf@ =~= edge_stream(graph.files_seq(), self.files_seq(), gb));
                }
                crate::hash::fnv1a_hash(buf.as_slice())
            },
        };
        Hash(h)
    }

    /// The staleness decision of the engine: edge `id` is clean iff every
    /// output exists on disk (`outs_exist`, from the caller's stats: a
    /// missing output forces dirty regardless of fingerprints) and a
    /// previously persisted fingerprint exists and equals the freshly
    /// computed one.
    pub fn is_clean(&mut self, graph: &Graph, last: Option<Hash>, id: BuildId, outs_exist: bool) -> (r: bool)
        requires
            graph.wf(),
            old(self).covers(graph),
            0 <= id.idx() < graph.builds_seq().len(),
            old(self).hashes_seq()[id.idx()] is None
                ==> old(self).statted(graph.builds_seq()[id.idx()].hashed_ins()),
            old(self).hashes_seq()[id.idx()] matches Some(h)
                ==> h.value() == fingerprint(
                    graph.files_seq(),
                    old(self).files_seq(),
                    graph.builds_seq()[id.idx()],
                ),
        ensures
            final(self).files_seq() == old(self).files_seq(),
            final(self).covers(graph),
            r == (outs_exist && clean_fingerprint(
                last,
                graph.files_seq(),
                old(self).files_seq(),
                graph.builds_seq()[id.idx()],
            )),
    {
        let current = self.hash(graph, id);
        match last {
            Some(h) => outs_exist && h == current,
            None => false,
        }
    }
}


/// The hashed inputs of `b` are unchanged between `(files1, states1)` and
/// `(files2, states2)`: byte-identical names and equal stat results.
pub open spec fn inputs_unchanged(
    files1: Seq<File>,
    states1: Seq<FileState>,
    files2: Seq<File>,
    states2: Seq<FileState>,
    ids: Seq<FileId>,
) -> bool {
    forall|i: int|
        0 <= i < ids.len() ==> {
            let f = (#[trigger] ids[i]).idx();
            &&& 0 <= f < files1.len()
            &&& 0 <= f < files2.len()
            &&& 0 <= f < states1.len()
            &&& 0 <= f < states2.len()
            &&& files2[f].name@ == files1[f].name@
            &&& states2[f].mtime == states1[f].mtime
        }
}

proof fn lemma_ins_stream_congruence(
    files1: Seq<File>,
    states1: Seq<FileState>,
    files2: Seq<File>,
    states2: Seq<FileState>,
    ids: Seq<FileId>,
)
    requires
        inputs_unchanged(files1, states1, files2, states2, ids),
    ensures
        ins_stream(files2, states2, ids) == ins_stream(files1, states1, ids),
    decreases ids.len(),
{
    if ids.len() > 0 {
        assert forall|i: int| 0 <= i < ids.drop_last().len()
            implies (#[trigger] ids.drop_last()[i]) == ids[i] by {}
        lemma_ins_stream_congruence(files1, states1, files2, states2, ids.drop_last());
        let f = ids.last().idx();
        assert(input_record(files2, states2, ids.last())
            == input_record(files1, states1, ids.last()));
    }
}

/// Monotone cleanliness: an edge whose hashed inputs are unchanged —
/// byte-identical names, equal stat results — has an unchanged fingerprint,
/// so if its stored fingerprint matched before, it still matches, the edge
/// is clean, and the engine does not execute it.
pub proof fn lemma_monotone_cleanliness(
    files1: Seq<File>,
    states1: Seq<FileState>,
    files2: Seq<File>,
    states2: Seq<FileState>,
    b: Build,
    last: Hash,
)
    requires
        inputs_unchanged(files1, states1, files2, states2, b.hashed_ins()),
        clean_fingerprint(Some(last), files1, states1, b),
    ensures
        clean_fingerprint(Some(last), files2, states2, b),
{
    lemma_ins_stream_congruence(files1, states1, files2, states2, b.hashed_ins());
}

/// Idempotence of a run: once a run has persisted the fingerprint it
/// computed for an edge, a second run over the same graph that observes the
/// same mtimes recomputes the same fingerprint, finds the edge clean, and
/// performs no execution for it.
pub proof fn lemma_second_run_is_clean(
    files: Seq<File>,
    run1: Seq<FileState>,
    run2: Seq<FileState>,
    b: Build,
    logged: Hash,
)
    requires
        logged.value() == fingerprint(files, run1, b),
        inputs_unchanged(files, run1, files, run2, b.hashed_ins()),
    ensures
        clean_fingerprint(Some(logged), files, run2, b),
{
    lemma_ins_stream_congruence(files, run1, files, run2, b.hashed_ins());
}


/// A load-time graph error.
#[derive(Debug, Copy, Clone, Eq, PartialEq, Structural)]
pub enum GraphError {
    /// The graph has a dependency cycle; the id names one edge that lies
    /// on a cycle.
    Cycle(BuildId),
}

/// How many entries of `s` are true.
pub open spec fn count_trues(s: Seq<bool>) -> nat
    decreases s.len(),
{
    if s.len() == 0 {
        0
    } else {
        count_trues(s.drop_last()) + if s.last() {
            1nat
        } else {
            0nat
        }
    }
}

proof fn lemma_count_trues_le_len(s: Seq<bool>)
    ensures
        count_trues(s) <= s.len(),
    decreases s.len(),
{
    if s.len() > 0 {
        lemma_count_trues_le_len(s.drop_last());
    }
}

proof fn lemma_count_trues_update(s: Seq<bool>, i: int)
    requires
        0 <= i < s.len(),
        !s[i],
    ensures
        count_trues(s.update(i, true)) == count_trues(s) + 1,
    decreases s.len(),
{
    let t = s.update(i, true);
    if i == s.len() - 1 {
        assert(t.drop_last() =~= s.drop_last());
    } else {
        assert(t.drop_last() =~= s.drop_last().update(i, true));
        lemma_count_trues_update(s.drop_last(), i);
    }
}

impl Graph {
    /// Edge `p` feeds edge `b`: some input of `b` is produced by `p`.
    pub open spec fn feeds(&self, p: int, b: int) -> bool {
        exists|i: int|
            0 <= i < self.builds_seq()[b].ins@.len() && match self.files_seq()[(
            #[trigger] self.builds_seq()[b].ins@[i]).idx()].input {
                Some(q) => q.idx() == p,
                None => false,
            }
    }

    /// A ranking that certifies acyclicity: every producer ranks strictly
    /// below every edge it feeds.
    pub open spec fn rank_ok(&self, rank: Seq<nat>) -> bool {
        &&& rank.len() == self.builds_seq().len()
        &&& forall|p: int, b: int|
            self.valid_build(p) && self.valid_build(b) && #[trigger] self.feeds(p, b)
                ==> rank[p] < rank[b]
    }

    /// The edge → output → edge closure is acyclic.
    pub open spec fn acyclic(&self) -> bool {
        exists|rank: Seq<nat>| self.rank_ok(rank)
    }

    /// Every producer of an input of `b` is finished, with a strictly
    /// smaller rank.
    pub open spec fn producers_done_below(&self, b: int, done: Seq<bool>, rank: Seq<usize>) -> bool {
        forall|i: int|
            0 <= i < self.builds_seq()[b].ins@.len() ==> match self.files_seq()[(
            #[trigger] self.builds_seq()[b].ins@[i]).idx()].input {
                Some(p) => done[p.idx()] && rank[p.idx()] < rank[b],
                None => true,
            }
    }

    /// Some input of `b` is produced by an unfinished edge.
    pub open spec fn has_undone_producer(&self, b: int, done: Seq<bool>) -> bool {
        exists|i: int|
            0 <= i < self.builds_seq()[b].ins@.len() && match self.files_seq()[(
            #[trigger] self.builds_seq()[b].ins@[i]).idx()].input {
                Some(p) => !done[p.idx()],
                None => false,
            }
    }

    /// `c` is a cycle through edge `b`: it starts and ends at `b`, and
    /// each edge in it is fed by the next.
    pub open spec fn cycle_through(&self, c: Seq<int>, b: int) -> bool {
        &&& c.len() >= 2
        &&& c[0] == b
        &&& c.last() == b
        &&& forall|i: int| 0 <= i < c.len() - 1
            ==> self.valid_build(#[trigger] c[i]) && self.feeds(c[i + 1], c[i])
    }

    /// Edge `b` lies on a dependency cycle.
    pub open spec fn on_cycle(&self, b: int) -> bool {
        exists|c: Seq<int>| self.cycle_through(c, b)
    }

    /// Starting from an unfinished edge, follow unfinished producers until
    /// an edge repeats: that edge lies on a cycle.
    #[verifier::rlimit(100)]
    fn find_cycle_member(&self, done: &Vec<bool>, start_edge: usize) -> (r: usize)
        requires
            self.wf(),
            done@.len() == self.builds_seq().len(),
            0 <= start_edge < done@.len(),
            !done@[start_edge as int],
            forall|bb: int| 0 <= bb < done@.len() && !(#[trigger] done@[bb])
                ==> self.has_undone_producer(bb, done@),
        ensures
            self.valid_build(r as int),
            self.on_cycle(r as int),
    {
        let nb = done.len();
        let mut visited: Vec<bool> = Vec::new();
        let mut init: usize = 0;
        while init < nb
            invariant
                visited@.len() == init,
                init <= nb,
                forall|x: int| 0 <= x < init ==> !(#[trigger] visited@[x]),
            decreases nb - init,
        {
            visited.push(false);
            init += 1;
        }
        proof {
            lemma_count_all_false(visited@);
        }
        let mut n_vis: usize = 0;
        let mut path: Vec<usize> = Vec::new();
        path.push(start_edge);
        loop
            invariant
                self.wf(),
                nb == self.builds_seq().len(),
                done@.len() == nb,
                forall|bb: int| 0 <= bb < nb && !(#[trigger] done@[bb])
                    ==> self.has_undone_producer(bb, done@),
                visited@.len() == nb,
                n_vis == count_trues(visited@),
                n_vis <= nb,
                path@.len() == n_vis + 1,
                forall|j: int| 0 <= j < path@.len()
                    ==> 0 <= #[trigger] path@[j] < nb && !done@[path@[j] as int],
                forall|j: int| 0 <= j < path@.len() - 1
                    ==> self.feeds(#[trigger] path@[j + 1] as int, path@[j] as int),
                forall|j: int| 0 <= j < path@.len() - 1 ==> visited@[#[trigger] path@[j] as int],
                forall|x: int| 0 <= x < nb && #[trigger] visited@[x]
                    ==> exists|j: int| 0 <= j < path@.len() - 1 && path@[j] == x,
            decreases nb - n_vis,
        {
            let cur = path[path.len() - 1];
            if visited[cur] {
                proof {
                    assert(exists|j: int| 0 <= j < path@.len() - 1 && path@[j] == cur);
                }
                let mut j0: usize = 0;
                let pl_exec = path.len();
                proof {
                    let jw = choose|j: int| 0 <= j < path@.len() - 1 && path@[j] == cur;
                    assert(j0 <= jw < path@.len() - 1);
                }
                while path[j0] != cur
                    invariant
                        path@.len() == pl_exec,
                        0 <= j0 < path@.len() - 1,
                        path@.len() >= 2,
                        exists|j: int| j0 <= j < path@.len() - 1 && path@[j] == cur,
                    decreases path@.len() - j0,
                {
                    proof {
                        let jw = choose|j: int| j0 <= j < path@.len() - 1 && path@[j] == cur;
                        assert(jw != j0);
                        assert(j0 + 1 <= jw < path@.len() - 1);
                    }
                    j0 += 1;
                }
                proof {
                    let pl = path@.len() as int;
                    let c = Seq::new((pl - j0) as nat, |i: int| path@[j0 + i] as int);
                    assert(c.len() >= 2);
                    assert(c[0] == cur as int);
                    assert(c.last() == path@[pl - 1] as int);
                    assert(path@[pl - 1] == cur);
                    assert forall|i: int| 0 <= i < c.len() - 1
                        implies self.valid_build(#[trigger] c[i]) && self.feeds(c[i + 1], c[i]) by {
                        assert(c[i] == path@[j0 + i] as int);
                        assert(c[i + 1] == path@[j0 + i + 1] as int);
                        assert(self.feeds(path@[j0 + i + 1] as int, path@[j0 + i] as int));
                    }
                    assert(self.cycle_through(c, cur as int));
                    assert(self.on_cycle(cur as int));
                }
                return cur;
            }
            proof {
                lemma_count_trues_update(visited@, cur as int);
            }
            visited[cur] = true;
            proof {
                lemma_count_trues_le_len(visited@);
            }
            n_vis += 1;
            let bid = BuildId(cur);
            let build = self.build(bid);
            let ghost gb = self.builds_seq()[cur as int];
            let ni = build.ins.len();
            let mut producer: usize = 0;
            let mut found = false;
            let mut i: usize = 0;
            while i < ni
                invariant
                    self.wf(),
                    nb == self.builds_seq().len(),
                    done@.len() == nb,
                    0 <= cur < nb,
                    *build == gb,
                    gb == self.builds_seq()[cur as int],
                    ni == gb.ins@.len(),
                    0 <= i <= ni,
                    found ==> 0 <= producer < nb && !done@[producer as int] && self.feeds(
                        producer as int,
                        cur as int,
                    ),
                    !found ==> forall|ii: int|
                        0 <= ii < i ==> match self.files_seq()[(
                        #[trigger] gb.ins@[ii]).idx()].input {
                            Some(p) => done@[p.idx()],
                            None => true,
                        },
                decreases ni - i,
            {
                if !found {
                    let fid = build.ins[i];
                    proof {
                        assert(self.build_ids_valid(gb));
                        assert(self.valid_file(gb.ins@[i as int].idx()));
                    }
                    match self.file(fid).input {
                        Some(p) => {
                            proof {
                                assert(match self.files_seq()[gb.ins@[i as int].idx()].input {
                                    Some(q) => self.valid_build(q.idx()),
                                    None => true,
                                });
                            }
                            if !done[p.index()] {
                                producer = p.index();
                                found = true;
                                proof {
                                    assert(self.feeds(producer as int, cur as int));
                                }
                            }
                        },
                        None => {},
                    }
                }
                i += 1;
            }
            proof {
                if !found {
                    assert(self.has_undone_producer(cur as int, done@));
                    let ii = choose|ii: int|
                        0 <= ii < self.builds_seq()[cur as int].ins@.len() && match self.files_seq()[(
                        #[trigger] self.builds_seq()[cur as int].ins@[ii]).idx()].input {
                            Some(p) => !done@[p.idx()],
                            None => false,
                        };
                    assert(false);
                }
            }
            let ghost pre_path = path@;
            path.push(producer);
            proof {
                assert forall|x: int| 0 <= x < nb && #[trigger] visited@[x]
                    implies exists|j: int| 0 <= j < path@.len() - 1 && path@[j] == x by {
                    if x == cur as int {
                        assert(path@[pre_path.len() - 1] == cur);
                    } else {
                        let j = choose|j: int| 0 <= j < pre_path.len() - 1 && pre_path[j] == x;
                        assert(path@[j] == x);
                    }
                }
            }
        }
    }

    /// Decide whether the graph is acyclic.  Succeeds exactly on acyclic
    /// graphs; on a cyclic graph the error names one edge on a cycle.
    #[verifier::rlimit(60)]
    pub fn check_acyclic(&self) -> (r: Result<(), GraphError>)
        requires
            self.wf(),
        ensures
            r is Ok <==> self.acyclic(),
            match r {
                Ok(()) => true,
                Err(GraphError::Cycle(b)) => self.valid_build(b.idx()) && self.on_cycle(b.idx()),
            },
    {
        let nb = self.num_builds();
        let mut done: Vec<bool> = Vec::new();
        let mut rank: Vec<usize> = Vec::new();
        let mut init: usize = 0;
        while init < nb
            invariant
                done@.len() == init,
                rank@.len() == init,
                init <= nb,
                forall|b: int| 0 <= b < init ==> !(#[trigger] done@[b]),
            decreases nb - init,
        {
            done.push(false);
            rank.push(0);
            init += 1;
        }
        proof {
            lemma_count_all_false(done@);
        }
        let mut n_done: usize = 0;
        let mut stuck = false;
        while !stuck
            invariant
                self.wf(),
                nb == self.builds_seq().len(),
                done@.len() == nb,
                rank@.len() == nb,
                n_done == count_trues(done@),
                n_done <= nb,
                forall|b: int| 0 <= b < nb && #[trigger] done@[b]
                    ==> self.producers_done_below(b, done@, rank@),
                forall|b: int| 0 <= b < nb && #[trigger] done@[b] ==> rank@[b] < n_done,
                stuck ==> forall|bb: int|
                    0 <= bb < nb && !(#[trigger] done@[bb])
                        ==> self.has_undone_producer(bb, done@),
            decreases 2 * (nb - n_done) + (if stuck { 0int } else { 1int }),
        {
            let ghost entry_done = n_done as int;
            let ghost pass_start = done@;
            let mut progressed = false;
            let mut b: usize = 0;
            while b < nb
                invariant
                    self.wf(),
                    nb == self.builds_seq().len(),
                    done@.len() == nb,
                    rank@.len() == nb,
                    0 <= b <= nb,
                    n_done == count_trues(done@),
                    n_done <= nb,
                    n_done >= entry_done,
                    progressed ==> n_done > entry_done,
                    !progressed ==> done@ == pass_start,
                    forall|bb: int| 0 <= bb < nb && #[trigger] done@[bb]
                        ==> self.producers_done_below(bb, done@, rank@),
                    forall|bb: int| 0 <= bb < nb && #[trigger] done@[bb] ==> rank@[bb] < n_done,
                    !progressed ==> forall|bb: int|
                        0 <= bb < b && !(#[trigger] done@[bb])
                            ==> self.has_undone_producer(bb, done@),
                decreases nb - b,
            {
                if !done[b] {
                    let bid = BuildId(b);
                    let build = self.build(bid);
                    let ghost gb = self.builds_seq()[b as int];
                    let ni = build.ins.len();
                    let mut all = true;
                    let mut i: usize = 0;
                    while i < ni
                        invariant
                            self.wf(),
                            nb == self.builds_seq().len(),
                            done@.len() == nb,
                            rank@.len() == nb,
                            0 <= b < nb,
                            *build == gb,
                            gb == self.builds_seq()[b as int],
                            ni == gb.ins@.len(),
                            0 <= i <= ni,
                            all ==> forall|ii: int|
                                0 <= ii < i ==> match self.files_seq()[(
                                #[trigger] gb.ins@[ii]).idx()].input {
                                    Some(p) => done@[p.idx()],
                                    None => true,
                                },
                            !all ==> self.has_undone_producer(b as int, done@),
                        decreases ni - i,
                    {
                        let fid = build.ins[i];
                        proof {
                            assert(self.build_ids_valid(gb));
                            assert(self.valid_file(gb.ins@[i as int].idx()));
                        }
                        match self.file(fid).input {
                            Some(p) => {
                                proof {
                                    assert(match self.files_seq()[gb.ins@[i as int].idx()].input {
                                        Some(q) => self.valid_build(q.idx()),
                                        None => true,
                                    });
                                }
                                if !done[p.index()] {
                                    all = false;
                                }
                            },
                            None => {},
                        }
                        i += 1;
                    }
                    if all {
                        proof {
                            lemma_count_trues_update(done@, b as int);
                        }
                        done[b] = true;
                        proof {
                            lemma_count_trues_le_len(done@);
                        }
                        rank[b] = n_done;
                        n_done += 1;
                        progressed = true;
                        proof {
                            assert forall|bb: int| 0 <= bb < nb && #[trigger] done@[bb]
                                implies self.producers_done_below(bb, done@, rank@) by {}
                        }
                    }
                }
                b += 1;
            }
            if !progressed {
                stuck = true;
            }
        }
        let mut b: usize = 0;
        while b < nb
            invariant
                self.wf(),
                nb == self.builds_seq().len(),
                done@.len() == nb,
                rank@.len() == nb,
                0 <= b <= nb,
                forall|bb: int| 0 <= bb < nb && #[trigger] done@[bb]
                    ==> self.producers_done_below(bb, done@, rank@),
                forall|bb: int| 0 <= bb < nb && !(#[trigger] done@[bb])
                    ==> self.has_undone_producer(bb, done@),
                forall|bb: int| 0 <= bb < b ==> #[trigger] done@[bb],
            decreases nb - b,
        {
            if !done[b] {
                proof {
                    assert(!self.acyclic()) by {
                        if self.acyclic() {
                            let rank_w = choose|rw: Seq<nat>| self.rank_ok(rw);
                            lemma_stuck_rank_unbounded(
                                self,
                                done@,
                                rank_w,
                                b as int,
                                rank_w[b as int] + 1,
                            );
                        }
                    }
                }
                let member = self.find_cycle_member(&done, b);
                return Err(GraphError::Cycle(BuildId(member)));
            }
            b += 1;
        }
        proof {
            let witness = Seq::new(nb as nat, |x: int| rank@[x] as nat);
            assert forall|p: int, bb: int|
                self.valid_build(p) && self.valid_build(bb) && #[trigger] self.feeds(p, bb)
                implies witness[p] < witness[bb] by {
                let i = choose|i: int|
                    0 <= i < self.builds_seq()[bb].ins@.len() && match self.files_seq()[(
                    #[trigger] self.builds_seq()[bb].ins@[i]).idx()].input {
                        Some(q) => q.idx() == p,
                        None => false,
                    };
                assert(done@[bb]);
                assert(self.producers_done_below(bb, done@, rank@));
                assert(match self.files_seq()[self.builds_seq()[bb].ins@[i].idx()].input {
                    Some(q) => done@[q.idx()] && rank@[q.idx()] < rank@[bb as int],
                    None => true,
                });
            }
            assert(self.rank_ok(witness));
        }
        Ok(())
    }
}

proof fn lemma_count_all_false(s: Seq<bool>)
    requires
        forall|i: int| 0 <= i < s.len() ==> !(#[trigger] s[i]),
    ensures
        count_trues(s) == 0,
    decreases s.len(),
{
    if s.len() > 0 {
        lemma_count_all_false(s.drop_last());
    }
}

/// If every unfinished edge has an unfinished producer, then under any
/// ranking that certifies acyclicity an unfinished edge ranks above every
/// bound: following unfinished producers descends in rank forever.
proof fn lemma_stuck_rank_unbounded(g: &Graph, done: Seq<bool>, rank: Seq<nat>, b: int, k: nat)
    requires
        g.wf(),
        done.len() == g.builds_seq().len(),
        g.rank_ok(rank),
        forall|bb: int| 0 <= bb < done.len() && !(#[trigger] done[bb])
            ==> g.has_undone_producer(bb, done),
        0 <= b < done.len(),
        !done[b],
    ensures
        rank[b] >= k,
    decreases k,
{
    if k > 0 {
        assert(g.has_undone_producer(b, done));
        let i = choose|i: int|
            0 <= i < g.builds_seq()[b].ins@.len() && match g.files_seq()[(
            #[trigger] g.builds_seq()[b].ins@[i]).idx()].input {
                Some(p) => !done[p.idx()],
                None => false,
            };
        let f = g.builds_seq()[b].ins@[i].idx();
        assert(g.build_ids_valid(g.builds_seq()[b]));
        assert(g.valid_file(f));
        let p = match g.files_seq()[f].input {
            Some(q) => q.idx(),
            None => 0,
        };
        assert(g.valid_build(p));
        assert(g.feeds(p, b));
        assert(rank[p] < rank[b]);
        lemma_stuck_rank_unbounded(g, done, rank, p, (k - 1) as nat);
    }
}


/// Up-to-date propagation: upstream edge `e` was clean, so it did not run
/// and each of its outputs stats the same as in the previous run; if every
/// input of downstream edge `d` is either produced by `e` or itself
/// unchanged, then `d`'s fingerprint is unchanged — `d` observes no changed
/// input through `e`, its stored fingerprint still matches, and the engine
/// does not execute it.
pub proof fn lemma_up_to_date_propagation(
    g: &Graph,
    run1: Seq<FileState>,
    run2: Seq<FileState>,
    e: int,
    d: int,
    logged: Hash,
)
    requires
        g.wf(),
        g.valid_build(e),
        g.valid_build(d),
        run1.len() == g.files_seq().len(),
        run2.len() == g.files_seq().len(),
        forall|j: int| 0 <= j < g.builds_seq()[e].outs@.len()
            ==> run2[(#[trigger] g.builds_seq()[e].outs@[j]).idx()].mtime
                == run1[g.builds_seq()[e].outs@[j].idx()].mtime,
        forall|i: int| 0 <= i < g.builds_seq()[d].hashed_ins().len() ==> {
            let f = (#[trigger] g.builds_seq()[d].hashed_ins()[i]).idx();
            g.lists_out(e, f) || run2[f].mtime == run1[f].mtime
        },
        clean_fingerprint(Some(logged), g.files_seq(), run1, g.builds_seq()[d]),
    ensures
        clean_fingerprint(Some(logged), g.files_seq(), run2, g.builds_seq()[d]),
{
    let b = g.builds_seq()[d];
    assert(b.regions_wf());
    assert forall|i: int| 0 <= i < b.hashed_ins().len() implies {
        let f = (#[trigger] b.hashed_ins()[i]).idx();
        &&& 0 <= f < g.files_seq().len()
        &&& 0 <= f < run1.len()
        &&& 0 <= f < run2.len()
        &&& run2[f].mtime == run1[f].mtime
    } by {
        let f = b.hashed_ins()[i].idx();
        assert(b.hashed_ins()[i] == b.ins@[i]);
        assert(g.build_ids_valid(b));
        assert(g.valid_file(f));
        if g.lists_out(e, f) {
            let j = choose|j: int|
                0 <= j < g.builds_seq()[e].outs@.len() && #[trigger] g.builds_seq()[e].outs@[j].idx()
                    == f;
            assert(run2[g.builds_seq()[e].outs@[j].idx()].mtime
                == run1[g.builds_seq()[e].outs@[j].idx()].mtime);
        }
    }
    assert(inputs_unchanged(g.files_seq(), run1, g.files_seq(), run2, b.hashed_ins()));
    lemma_monotone_cleanliness(g.files_seq(), run1, g.files_seq(), run2, b, logged);
}

} // verus!

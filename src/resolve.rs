use vstd::prelude::*;

use vstd::string::StringSliceAdditionalSpecFns;

use crate::bytes::le16;
use crate::cluster::{Cluster, CLUSTER_MASK};
use crate::device::BlockDevice;
use crate::dir::{first_match, listed_entry, listing, no_match, Dir, Entry, File, RECORD_SIZE};
use crate::error::Error;
use crate::metadata::{has_attr, Metadata, ATTR_DIRECTORY};
use crate::path::{components, comps_view, is_absolute, path_comps, Comp, Component};
use crate::vfat::VFat;

verus! {

/// Some component of `comps` is a name.
pub open spec fn has_name(comps: Seq<Comp>) -> bool {
    exists|i: int| 0 <= i < comps.len() && (#[trigger] comps[i]) is Normal
}

/// An entry reached while resolving a path: the root directory, or entry `i`
/// of the listing of the directory whose chain begins at the given cluster.
pub ghost enum Node {
    Root,
    Child(Cluster, int),
}

/// Entry `i` of the listing of `data` is the first one named `q`, and no
/// other is.
pub proof fn lemma_first_match_unique(data: Seq<u8>, i: int, j: int, q: Seq<u8>)
    requires
        first_match(data, i, q),
        first_match(data, j, q),
    ensures
        i == j,
{
}

impl<D: BlockDevice> VFat<D> {
    /// The number of clusters of the directory chain that begins at `c`.
    pub open spec fn dir_len(&self, c: Cluster) -> nat {
        choose|len: nat| self.chain_has_len(c, len)
    }

    /// The records of the directory whose chain begins at `c`.
    pub open spec fn dir_data(&self, c: Cluster) -> Seq<u8> {
        self.chain_bytes(c, self.dir_len(c))
    }

    /// Offset of the record of node `Child(c, i)` in its directory's records.
    pub open spec fn record_at(&self, c: Cluster, i: int) -> int {
        RECORD_SIZE * listing(self.dir_data(c))[i].0
    }

    /// The node is a directory.
    pub open spec fn node_is_dir(&self, n: Node) -> bool {
        match n {
            Node::Root => true,
            Node::Child(c, i) => has_attr(self.dir_data(c)[self.record_at(c, i) + 11], ATTR_DIRECTORY),
        }
    }

    /// The first cluster of the node: high and low halves from the record.
    pub open spec fn node_cluster(&self, n: Node) -> Cluster {
        match n {
            Node::Root => self.root_dir_cluster,
            Node::Child(c, i) => {
                let data = self.dir_data(c);
                let at = self.record_at(c, i);
                Cluster(((le16(data, at + 20) * 65536 + le16(data, at + 26)) as u32) & CLUSTER_MASK)
            },
        }
    }

    /// The index of the first entry named `q` in the directory that begins at
    /// `c`, or `None` if the directory has an end and no such entry.
    pub open spec fn lookup(&self, c: Cluster, q: Seq<u8>) -> Option<int> {
        if exists|i: int| first_match(self.dir_data(c), i, q) {
            Some(choose|i: int| first_match(self.dir_data(c), i, q))
        } else {
            None
        }
    }

    /// Resolves `comps` from the stack of entries `stack`: the root resets the
    /// stack, `.` keeps it, `..` drops its last entry unless only the root
    /// is left, and a name looks up the entry in the last entry, which must
    /// be a directory. `None` when a name is not found.
    pub open spec fn resolve(&self, comps: Seq<Comp>, stack: Seq<Node>) -> Option<Seq<Node>>
        decreases comps.len(),
    {
        if comps.len() == 0 {
            Some(stack)
        } else {
            let rest = comps.drop_first();
            match comps[0] {
                Comp::Root => self.resolve(rest, seq![Node::Root]),
                Comp::Cur => self.resolve(rest, stack),
                Comp::Parent => self.resolve(
                    rest,
                    if stack.len() > 1 {
                        stack.drop_last()
                    } else {
                        stack
                    },
                ),
                Comp::Normal(q) => {
                    if stack.len() > 0 && self.node_is_dir(stack.last()) {
                        let c = self.node_cluster(stack.last());
                        match self.lookup(c, q) {
                            Some(i) => self.resolve(rest, stack.push(Node::Child(c, i))),
                            None => None,
                        }
                    } else {
                        None
                    }
                },
            }
        }
    }

    /// Every directory in which `resolve` looks up a name, resolving `comps`
    /// from `stack`, has a valid cluster chain.
    pub open spec fn dirs_valid(&self, comps: Seq<Comp>, stack: Seq<Node>) -> bool
        decreases comps.len(),
    {
        if comps.len() == 0 {
            true
        } else {
            let rest = comps.drop_first();
            match comps[0] {
                Comp::Root => self.dirs_valid(rest, seq![Node::Root]),
                Comp::Cur => self.dirs_valid(rest, stack),
                Comp::Parent => self.dirs_valid(
                    rest,
                    if stack.len() > 1 {
                        stack.drop_last()
                    } else {
                        stack
                    },
                ),
                Comp::Normal(q) => {
                    if stack.len() > 0 && self.node_is_dir(stack.last()) {
                        let c = self.node_cluster(stack.last());
                        &&& exists|len: nat| #[trigger] self.valid_chain(c, len)
                        &&& match self.lookup(c, q) {
                            Some(i) => self.dirs_valid(rest, stack.push(Node::Child(c, i))),
                            None => true,
                        }
                    } else {
                        true
                    }
                },
            }
        }
    }

    /// Entry `e` is the one node `n` stands for.
    pub open spec fn node_holds(&self, e: Entry, n: Node) -> bool {
        match n {
            Node::Root => e matches Entry::Dir(d) && d.first_cluster == self.root_dir_cluster && d.meta
                == Metadata::zero() && d.short_file_name@.len() == 0 && d.lfn@.len() == 0,
            Node::Child(c, i) => listed_entry(e, self.dir_data(c), i, self.cluster_size() as usize),
        }
    }

    /// Opens the entry at absolute path `path`.
    ///
    /// Fails with `InvalidInput` if `path` is not absolute, with `NotFound`
    /// if a component is missing or names something inside a file, with
    /// `InvalidData` only if a directory looked up on the way has no valid
    /// cluster chain, and with `Io` if the device fails. A path of the root,
    /// `.` and `..` alone reads nothing and opens the root directory.
    #[verifier::rlimit(100)]
    pub fn open(&mut self, path: &str) -> (r: Result<Entry, Error>)
        requires
            old(self).wf(),
        ensures
            final(self).wf(),
            final(self).same_volume(old(self)),
            r matches Err(Error::InvalidInput) <==> !is_absolute(path.spec_bytes()),
            r matches Ok(e) ==> {
                &&& old(self).resolve(path_comps(path.spec_bytes()), Seq::empty()) matches Some(st)
                &&& st.len() > 0
                &&& old(self).node_holds(e, st.last())
            },
            r matches Err(Error::NotFound) ==> old(self).resolve(path_comps(path.spec_bytes()), Seq::empty())
                is None,
            r matches Err(e) ==> e is Io || e is InvalidData || e is NotFound || e is InvalidInput,
            !is_absolute(path.spec_bytes()) ==> *final(self) == *old(self),
            is_absolute(path.spec_bytes()) && old(self).dirs_valid(path_comps(path.spec_bytes()), Seq::empty())
                ==> !(r matches Err(Error::InvalidData)),
            is_absolute(path.spec_bytes()) && !has_name(path_comps(path.spec_bytes())) ==> r is Ok,
    {
        let ghost fs0 = *old(self);
        let b = path.as_bytes();
        if b.len() == 0 || b[0] != 0x2F {
            return Err(Error::InvalidInput);
        }
        let comps = components(path);
        let ghost cv = comps_view(comps@);
        let ghost mut nodes: Seq<Node> = Seq::empty();
        let mut stack: Vec<Entry> = Vec::new();
        let mut k: usize = 0;
        proof {
            assert(cv.subrange(0, cv.len() as int) =~= cv);
        }
        while k < comps.len()
            invariant
                fs0 == *old(self),
                self.wf(),
                self.same_volume(&fs0),
                is_absolute(path.spec_bytes()),
                cv == comps_view(comps@),
                cv == path_comps(path.spec_bytes()),
                cv.len() == comps@.len(),
                cv.len() > 0 && cv[0] == Comp::Root,
                0 <= k <= comps@.len(),
                k > 0 ==> nodes.len() > 0,
                stack@.len() == nodes.len(),
                forall|j: int| 0 <= j < nodes.len() ==> fs0.node_holds(#[trigger] stack@[j], nodes[j]),
                fs0.resolve(cv, Seq::empty()) == fs0.resolve(cv.subrange(k as int, cv.len() as int), nodes),
                fs0.dirs_valid(cv, Seq::empty()) ==> fs0.dirs_valid(cv.subrange(k as int, cv.len() as int), nodes),
            decreases comps@.len() - k,
        {
            let ghost rest = cv.subrange(k as int, cv.len() as int);
            proof {
                assert(rest[0] == cv[k as int]);
                assert(rest.drop_first() =~= cv.subrange(k + 1, cv.len() as int));
                assert(cv[k as int] == comps@[k as int].view());
            }
            match &comps[k] {
                Component::RootDir => {
                    stack = Vec::new();
                    stack.push(Entry::Dir(Dir::new_dir(self)));
                    proof {
                        fs0.lemma_same_volume(self);
                        nodes = seq![Node::Root];
                    }
                },
                Component::CurDir => {},
                Component::ParentDir => {
                    if stack.len() > 1 {
                        stack.pop();
                        proof {
                            nodes = nodes.drop_last();
                        }
                    }
                },
                Component::Normal(q) => {
                    proof {
                        assert(has_name(cv)) by {
                            assert(cv[k as int] is Normal);
                        }
                    }
                    let n = stack.len();
                    if n == 0 {
                        return Err(Error::NotFound);
                    }
                    let found = match &stack[n - 1] {
                        Entry::Dir(d) => {
                            let ghost before = *self;
                            let ghost top = nodes.last();
                            proof {
                                assert(fs0.node_holds(stack@[n - 1], top));
                                assert(fs0.node_is_dir(top));
                                assert(d.first_cluster == fs0.node_cluster(top));
                            }
                            let res = d.find_bytes(self, q.as_slice());
                            proof {
                                fs0.lemma_same_chains(&before, d.first_cluster);
                            }
                            match res {
                                Ok(e) => {
                                    proof {
                                        let c = d.first_cluster;
                                        let (len, i) = choose|len: nat, i: int| {
                                            &&& #[trigger] before.chain_has_len(c, len)
                                            &&& #[trigger] first_match(before.chain_bytes(c, len), i, q@)
                                            &&& listed_entry(e, before.chain_bytes(c, len), i, before.cluster_size() as usize)
                                        };
                                        assert(fs0.chain_has_len(c, len));
                                        fs0.lemma_chain_len_unique(c, len, fs0.dir_len(c));
                                        assert(fs0.dir_data(c) == before.chain_bytes(c, len));
                                        assert(first_match(fs0.dir_data(c), i, q@));
                                        assert(fs0.lookup(c, q@) is Some);
                                        let i2 = fs0.lookup(c, q@)->Some_0;
                                        lemma_first_match_unique(fs0.dir_data(c), i, i2, q@);
                                        nodes = nodes.push(Node::Child(c, i));
                                    }
                                    e
                                },
                                Err(e) => {
                                    proof {
                                        if e is InvalidData && fs0.dirs_valid(cv, Seq::empty()) {
                                            let c = d.first_cluster;
                                            assert(fs0.dirs_valid(rest, nodes));
                                            let len = choose|len: nat| #[trigger] fs0.valid_chain(c, len);
                                            fs0.lemma_same_valid_chain(&before, c, len);
                                        }
                                        if e is NotFound {
                                            let c = d.first_cluster;
                                            let len = choose|len: nat| {
                                                &&& #[trigger] before.chain_has_len(c, len)
                                                &&& no_match(before.chain_bytes(c, len), q@)
                                            };
                                            assert(fs0.chain_has_len(c, len));
                                            fs0.lemma_chain_len_unique(c, len, fs0.dir_len(c));
                                            assert(fs0.dir_data(c) == before.chain_bytes(c, len));
                                            assert(no_match(fs0.dir_data(c), q@));
                                            assert(fs0.lookup(c, q@) is None);
                                        }
                                    }
                                    return Err(e);
                                },
                            }
                        },
                        Entry::File(_) => {
                            proof {
                                assert(fs0.node_holds(stack@[n - 1], nodes.last()));
                                assert(!fs0.node_is_dir(nodes.last()));
                            }
                            return Err(Error::NotFound);
                        },
                    };
                    stack.push(found);
                },
            }
            k += 1;
        }
        proof {
            assert(cv.subrange(k as int, cv.len() as int) =~= Seq::<Comp>::empty());
        }
        match stack.pop() {
            Some(e) => Ok(e),
            None => Err(Error::NotFound),
        }
    }
}

impl<D: BlockDevice> VFat<D> {
    /// Creating files is not supported by this read-only filesystem.
    pub fn create_file(&mut self, path: &str) -> (r: Result<File, Error>)
        ensures
            r matches Err(Error::Unsupported),
    {
        Err(Error::Unsupported)
    }

    /// Creating directories is not supported by this read-only filesystem.
    pub fn create_dir(&mut self, path: &str, parents: bool) -> (r: Result<Dir, Error>)
        ensures
            r matches Err(Error::Unsupported),
    {
        Err(Error::Unsupported)
    }

    /// Renaming is not supported by this read-only filesystem.
    pub fn rename(&mut self, from: &str, to: &str) -> (r: Result<(), Error>)
        ensures
            r matches Err(Error::Unsupported),
    {
        Err(Error::Unsupported)
    }

    /// Removing is not supported by this read-only filesystem.
    pub fn remove(&mut self, path: &str, children: bool) -> (r: Result<(), Error>)
        ensures
            r matches Err(Error::Unsupported),
    {
        Err(Error::Unsupported)
    }
}

/// `..` undoes a name: resolving `/a/b/../c` gives what resolving `/a/c`
/// gives, whenever `/a/b` resolves.
pub proof fn lemma_parent_cancels<D: BlockDevice>(fs: &VFat<D>, a: Seq<u8>, b: Seq<u8>, c: Seq<u8>)
    requires
        fs.resolve(seq![Comp::Root, Comp::Normal(a), Comp::Normal(b)], Seq::empty()) is Some,
    ensures
        fs.resolve(
            seq![Comp::Root, Comp::Normal(a), Comp::Normal(b), Comp::Parent, Comp::Normal(c)],
            Seq::empty(),
        ) == fs.resolve(seq![Comp::Root, Comp::Normal(a), Comp::Normal(c)], Seq::empty()),
{
    let long = seq![Comp::Root, Comp::Normal(a), Comp::Normal(b), Comp::Parent, Comp::Normal(c)];
    let short = seq![Comp::Root, Comp::Normal(a), Comp::Normal(c)];
    let probe = seq![Comp::Root, Comp::Normal(a), Comp::Normal(b)];
    let root = seq![Node::Root];
    assert(long.drop_first() =~= seq![Comp::Normal(a), Comp::Normal(b), Comp::Parent, Comp::Normal(c)]);
    assert(short.drop_first() =~= seq![Comp::Normal(a), Comp::Normal(c)]);
    assert(probe.drop_first() =~= seq![Comp::Normal(a), Comp::Normal(b)]);
    let l1 = long.drop_first();
    let s1 = short.drop_first();
    let probe_a = probe.drop_first();
    assert(l1.drop_first() =~= seq![Comp::Normal(b), Comp::Parent, Comp::Normal(c)]);
    assert(s1.drop_first() =~= seq![Comp::Normal(c)]);
    assert(probe_a.drop_first() =~= seq![Comp::Normal(b)]);
    let ca = fs.node_cluster(Node::Root);
    let ia = fs.lookup(ca, a)->Some_0;
    let st_a = root.push(Node::Child(ca, ia));
    let l2 = l1.drop_first();
    let probe_b = probe_a.drop_first();
    assert(l2.drop_first() =~= seq![Comp::Parent, Comp::Normal(c)]);
    assert(probe_b.drop_first() =~= Seq::<Comp>::empty());
    let cb = fs.node_cluster(st_a.last());
    let ib = fs.lookup(cb, b)->Some_0;
    let st_b = st_a.push(Node::Child(cb, ib));
    let l3 = l2.drop_first();
    assert(l3.drop_first() =~= seq![Comp::Normal(c)]);
    assert(st_b.drop_last() =~= st_a);
    assert(fs.resolve(probe, Seq::empty()) == fs.resolve(probe_a, root));
    assert(fs.lookup(ca, a) is Some);
    assert(fs.resolve(probe_a, root) == fs.resolve(probe_b, st_a));
    assert(fs.node_is_dir(st_a.last()));
    assert(fs.lookup(cb, b) is Some);
    assert(fs.resolve(long, Seq::empty()) == fs.resolve(l1, root));
    assert(fs.resolve(l1, root) == fs.resolve(l2, st_a));
    assert(fs.resolve(l2, st_a) == fs.resolve(l3, st_b));
    assert(fs.resolve(l3, st_b) == fs.resolve(l3.drop_first(), st_a));
    assert(fs.resolve(short, Seq::empty()) == fs.resolve(s1, root));
    assert(fs.resolve(s1, root) == fs.resolve(s1.drop_first(), st_a));
}

} // verus!

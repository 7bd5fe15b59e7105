use vstd::prelude::*;
use crate::resolve::chars_start_with;
use crate::text::{chars_of_str, str_eq};

verus! {

/// What stands at a path: a regular file with its bytes and its permission
/// bits, or a directory with its permission bits.
pub ghost enum NodeView {
    File { content: Seq<u8>, mode: u32 },
    Dir { mode: u32 },
}

/// A filesystem node the engines work on.
pub enum FsNode {
    File { content: Vec<u8>, mode: u32 },
    Dir { mode: u32 },
}

impl View for FsNode {
    type V = NodeView;

    open spec fn view(&self) -> NodeView {
        match self {
            FsNode::File { content, mode } => NodeView::File { content: content@, mode: *mode },
            FsNode::Dir { mode } => NodeView::Dir { mode: *mode },
        }
    }
}

/// One named object of the filesystem space.
pub struct FsObj {
    pub path: String,
    pub node: FsNode,
}

/// The filesystem state the engines run against: the objects by absolute
/// path, and the paths where the platform refuses to create or overwrite
/// anything (the model of a permission or I/O failure).
pub struct FsSpace {
    pub objs: Vec<FsObj>,
    pub denied: Vec<String>,
}

/// The association of paths to nodes a list of objects holds.
pub open spec fn map_of(s: Seq<FsObj>) -> Map<Seq<char>, NodeView>
    decreases s.len(),
{
    if s.len() == 0 {
        Map::empty()
    } else {
        map_of(s.drop_last()).insert(s.last().path@, s.last().node@)
    }
}

/// No two objects share a path.
pub open spec fn unique_paths(s: Seq<FsObj>) -> bool {
    forall|i: int, j: int| 0 <= i < j < s.len() ==> s[i].path@ != s[j].path@
}

impl View for FsSpace {
    type V = Map<Seq<char>, NodeView>;

    open spec fn view(&self) -> Map<Seq<char>, NodeView> {
        map_of(self.objs@)
    }
}

/// `p` lies strictly below `base` in the tree: `base` plus a slash plus more.
pub open spec fn under(p: Seq<char>, base: Seq<char>) -> bool {
    p.len() > base.len() && p.subrange(0, base.len() as int) == base && p[base.len() as int] == '/'
}

/// `p` is `base` itself or lies below it: the paths a tree operation touches.
pub open spec fn covered(p: Seq<char>, base: Seq<char>) -> bool {
    p == base || under(p, base)
}

pub proof fn lemma_map_of_contains(s: Seq<FsObj>, p: Seq<char>)
    ensures
        map_of(s).dom().contains(p) <==> exists|k: int| 0 <= k < s.len() && s[k].path@ == p,
    decreases s.len(),
{
    if s.len() > 0 {
        let dl = s.drop_last();
        lemma_map_of_contains(dl, p);
        if s.last().path@ == p {
            assert(s[s.len() - 1].path@ == p);
        } else {
            if map_of(s).dom().contains(p) {
                let k = choose|k: int| 0 <= k < dl.len() && dl[k].path@ == p;
                assert(s[k].path@ == p);
            }
            if exists|k: int| 0 <= k < s.len() && s[k].path@ == p {
                let k = choose|k: int| 0 <= k < s.len() && s[k].path@ == p;
                assert(k < s.len() - 1);
                assert(dl[k].path@ == p);
            }
        }
    }
}

pub proof fn lemma_map_of_at(s: Seq<FsObj>, k: int)
    requires
        unique_paths(s),
        0 <= k < s.len(),
    ensures
        map_of(s).dom().contains(s[k].path@),
        map_of(s)[s[k].path@] == s[k].node@,
    decreases s.len(),
{
    if k == s.len() - 1 {
    } else {
        assert(unique_paths(s.drop_last()));
        lemma_map_of_at(s.drop_last(), k);
        assert(s.last().path@ != s[k].path@);
    }
}

/// True when `p` lies strictly under `base`.
pub fn under_chars(p: &Vec<char>, base: &Vec<char>) -> (r: bool)
    ensures
        r == under(p@, base@),
{
    if p.len() > base.len() && chars_start_with(p, base) {
        p[base.len()] == '/'
    } else {
        false
    }
}

/// True when a tree operation on `base` touches `p`.
pub fn covered_chars(p: &Vec<char>, base: &Vec<char>) -> (r: bool)
    ensures
        r == covered(p@, base@),
{
    if crate::text::chars_eq(p, base) {
        true
    } else {
        under_chars(p, base)
    }
}

/// The platform refuses writes at `p`, per the list of refused paths.
pub open spec fn denied_in(dn: Seq<String>, p: Seq<char>) -> bool {
    exists|k: int| 0 <= k < dn.len() && dn[k]@ == p
}

impl FsSpace {
    /// Paths are unique: the space denotes a map.
    pub open spec fn wf(&self) -> bool {
        unique_paths(self.objs@)
    }

    /// The platform refuses writes at this path.
    pub open spec fn spec_denied(&self, p: Seq<char>) -> bool {
        denied_in(self.denied@, p)
    }

    /// An empty filesystem space with nothing refused.
    pub fn new() -> (r: FsSpace)
        ensures
            r.wf(),
            r@ == Map::<Seq<char>, NodeView>::empty(),
            r.denied@.len() == 0,
    {
        FsSpace { objs: Vec::new(), denied: Vec::new() }
    }

    /// Marks a path as refused by the platform: any write there will fail.
    pub fn deny(&mut self, path: String)
        ensures
            final(self).objs == old(self).objs,
            final(self)@ == old(self)@,
            final(self).wf() == old(self).wf(),
            final(self).denied@ == old(self).denied@.push(path),
            final(self).spec_denied(path@),
            forall|q: Seq<char>|
                final(self).spec_denied(q) <==> old(self).spec_denied(q) || q == path@,
    {
        self.denied.push(path);
        proof {
            let dn = self.denied@;
            assert(dn[dn.len() - 1]@ == path@);
            assert forall|q: Seq<char>|
                final(self).spec_denied(q) <==> old(self).spec_denied(q) || q == path@ by {
                if old(self).spec_denied(q) {
                    let k = choose|k: int|
                        0 <= k < old(self).denied@.len() && old(self).denied@[k]@ == q;
                    assert(dn[k]@ == q);
                }
                if final(self).spec_denied(q) && q != path@ {
                    let k = choose|k: int| 0 <= k < dn.len() && dn[k]@ == q;
                    assert(k < dn.len() - 1);
                    assert(old(self).denied@[k]@ == q);
                }
            }
        }
    }

    /// True when the platform refuses writes at this path.
    pub fn is_denied(&self, path: &str) -> (r: bool)
        ensures
            r == self.spec_denied(path@),
    {
        let mut k: usize = 0;
        while k < self.denied.len()
            invariant
                k <= self.denied@.len(),
                forall|j: int| 0 <= j < k ==> self.denied@[j]@ != path@,
            decreases self.denied.len() - k,
        {
            if str_eq(self.denied[k].as_str(), path) {
                return true;
            }
            k = k + 1;
        }
        false
    }

    /// The index of the object at `path`, when there is one.
    pub fn find(&self, path: &str) -> (r: Option<usize>)
        requires
            self.wf(),
        ensures
            match r {
                Some(k) => k < self.objs@.len() && self.objs@[k as int].path@ == path@
                    && self@.dom().contains(path@) && self@[path@] == self.objs@[k as int].node@,
                None => !self@.dom().contains(path@),
            },
    {
        let mut k: usize = 0;
        while k < self.objs.len()
            invariant
                self.wf(),
                k <= self.objs@.len(),
                forall|j: int| 0 <= j < k ==> self.objs@[j].path@ != path@,
            decreases self.objs.len() - k,
        {
            if str_eq(self.objs[k].path.as_str(), path) {
                proof {
                    lemma_map_of_at(self.objs@, k as int);
                }
                return Some(k);
            }
            k = k + 1;
        }
        proof {
            lemma_map_of_contains(self.objs@, path@);
        }
        None
    }

    /// True when something stands at `path`.
    pub fn exists_path(&self, path: &str) -> (r: bool)
        requires
            self.wf(),
        ensures
            r == self@.dom().contains(path@),
    {
        self.find(path).is_some()
    }

    /// True when a directory stands at `path`.
    pub fn is_dir(&self, path: &str) -> (r: bool)
        requires
            self.wf(),
        ensures
            r == (self@.dom().contains(path@) && self@[path@] is Dir),
    {
        match self.find(path) {
            Some(k) => match &self.objs[k].node {
                FsNode::Dir { .. } => true,
                FsNode::File { .. } => false,
            },
            None => false,
        }
    }

    /// True when a regular file stands at `path`.
    pub fn is_file(&self, path: &str) -> (r: bool)
        requires
            self.wf(),
        ensures
            r == (self@.dom().contains(path@) && self@[path@] is File),
    {
        match self.find(path) {
            Some(k) => match &self.objs[k].node {
                FsNode::File { .. } => true,
                FsNode::Dir { .. } => false,
            },
            None => false,
        }
    }

    /// The bytes of the file at `path`, when a file stands there.
    pub fn read(&self, path: &str) -> (r: Option<Vec<u8>>)
        requires
            self.wf(),
        ensures
            match r {
                Some(c) => self@.dom().contains(path@) && self@[path@] is File && c@
                    == self@[path@]->File_content,
                None => !(self@.dom().contains(path@) && self@[path@] is File),
            },
    {
        match self.find(path) {
            Some(k) => match &self.objs[k].node {
                FsNode::File { content, .. } => Some(crate::text::copy_bytes(content)),
                FsNode::Dir { .. } => None,
            },
            None => None,
        }
    }

    /// True when some object lies strictly under `path`: the directory
    /// there is not empty.
    pub fn has_child(&self, path: &str) -> (r: bool)
        ensures
            r == exists|q: Seq<char>| #[trigger] self@.dom().contains(q) && under(q, path@),
    {
        let pv = chars_of_str(path);
        let mut k: usize = 0;
        while k < self.objs.len()
            invariant
                k <= self.objs@.len(),
                pv@ == path@,
                forall|j: int| 0 <= j < k ==> !under(self.objs@[j].path@, path@),
            decreases self.objs.len() - k,
        {
            let qv = chars_of_str(self.objs[k].path.as_str());
            if under_chars(&qv, &pv) {
                proof {
                    lemma_map_of_contains(self.objs@, self.objs@[k as int].path@);
                    assert(self@.dom().contains(self.objs@[k as int].path@) && under(
                        self.objs@[k as int].path@,
                        path@,
                    ));
                }
                return true;
            }
            k = k + 1;
        }
        proof {
            if exists|q: Seq<char>| #[trigger] self@.dom().contains(q) && under(q, path@) {
                let q = choose|q: Seq<char>| #[trigger] self@.dom().contains(q) && under(q, path@);
                lemma_map_of_contains(self.objs@, q);
                let j = choose|j: int| 0 <= j < self.objs@.len() && self.objs@[j].path@ == q;
                assert(!under(self.objs@[j].path@, path@));
            }
        }
        false
    }

    /// Drops every object the operation at `base` covers: just `base` when
    /// `tree` is false, `base` and everything under it when it is true.
    fn remove_covered(&mut self, base: &str, tree: bool)
        requires
            old(self).wf(),
        ensures
            final(self).wf(),
            final(self).denied == old(self).denied,
            forall|q: Seq<char>|
                #[trigger] final(self)@.dom().contains(q) <==> old(self)@.dom().contains(q) && !(
                if tree {
                    covered(q, base@)
                } else {
                    q == base@
                }),
            forall|q: Seq<char>|
                final(self)@.dom().contains(q) ==> final(self)@[q] == old(self)@[q],
            forall|k: int|
                0 <= k < final(self).objs@.len() ==> !(if tree {
                    covered(final(self).objs@[k].path@, base@)
                } else {
                    final(self).objs@[k].path@ == base@
                }),
    {
        let bv = chars_of_str(base);
        let n = self.objs.len();
        let ghost s0 = self.objs@;
        let mut out: Vec<FsObj> = Vec::new();
        let mut j: usize = 0;
        while j < n
            invariant
                j <= n,
                n == s0.len(),
                self.objs@ == s0,
                unique_paths(s0),
                bv@ == base@,
                unique_paths(out@),
                forall|q: Seq<char>|
                    #[trigger] map_of(out@).dom().contains(q) <==> map_of(
                        s0.subrange(0, j as int),
                    ).dom().contains(q) && !(if tree {
                        covered(q, base@)
                    } else {
                        q == base@
                    }),
                forall|q: Seq<char>|
                    map_of(out@).dom().contains(q) ==> map_of(out@)[q] == map_of(
                        s0.subrange(0, j as int),
                    )[q],
                forall|k: int|
                    0 <= k < out@.len() ==> !(if tree {
                        covered(out@[k].path@, base@)
                    } else {
                        out@[k].path@ == base@
                    }),
        decreases n - j,
        {
            let ghost pre = s0.subrange(0, j as int);
            let ghost preout = out@;
            let pv = chars_of_str(self.objs[j].path.as_str());
            let cov = if tree {
                covered_chars(&pv, &bv)
            } else {
                crate::text::chars_eq(&pv, &bv)
            };
            if !cov {
                let o = &self.objs[j];
                let node = clone_node(&o.node);
                let path = o.path.clone();
                out.push(FsObj { path, node });
                proof {
                    let pj = s0[j as int].path@;
                    let nj = s0[j as int].node@;
                    assert(out@.drop_last() =~= preout);
                    assert(map_of(out@) == map_of(preout).insert(pj, nj));
                    lemma_map_of_contains(preout, pj);
                    lemma_map_of_contains(pre, pj);
                    assert forall|k: int|
                        0 <= k < preout.len() implies #[trigger] preout[k].path@ != pj by {
                        if preout[k].path@ == pj {
                            assert(map_of(preout).dom().contains(pj));
                            assert(map_of(pre).dom().contains(pj));
                            let k2 = choose|k2: int| 0 <= k2 < pre.len() && pre[k2].path@ == pj;
                            assert(s0[k2].path@ == pj && k2 < j);
                        }
                    }
                }
            }
            proof {
                let cur = s0.subrange(0, j + 1);
                assert(cur.drop_last() =~= pre);
                assert(map_of(cur) == map_of(pre).insert(s0[j as int].path@, s0[j as int].node@));
            }
            j = j + 1;
        }
        proof {
            assert(s0.subrange(0, n as int) =~= s0);
        }
        self.objs = out;
    }

    /// Puts `node` at `path`, replacing whatever stood there.
    pub fn set_node(&mut self, path: &str, node: FsNode)
        requires
            old(self).wf(),
        ensures
            final(self).wf(),
            final(self).denied == old(self).denied,
            final(self)@ == old(self)@.insert(path@, node@),
    {
        let ghost nv = node@;
        self.remove_covered(path, false);
        let ghost mid = self@;
        let ghost midobjs = self.objs@;
        let pathstring = String::from_str(path);
        self.objs.push(FsObj { path: pathstring, node });
        proof {
            assert(self.objs@.drop_last() =~= midobjs);
            assert(self@ == map_of(midobjs).insert(path@, nv));
            assert forall|i: int, j: int|
                0 <= i < j < self.objs@.len() implies self.objs@[i].path@ != self.objs@[j].path@ by {
                if j == self.objs@.len() - 1 {
                    assert(!(midobjs[i].path@ == path@));
                }
            }
            assert(self@ =~= old(self)@.insert(path@, nv));
        }
    }

    /// Drops the object at `path`, if any; nothing else moves.
    pub fn remove_path(&mut self, path: &str)
        requires
            old(self).wf(),
        ensures
            final(self).wf(),
            final(self).denied == old(self).denied,
            final(self)@ == old(self)@.remove(path@),
    {
        self.remove_covered(path, false);
        proof {
            assert(self@ =~= old(self)@.remove(path@));
        }
    }

    /// Drops the object at `path` and everything under it.
    pub fn remove_tree(&mut self, path: &str)
        requires
            old(self).wf(),
        ensures
            final(self).wf(),
            final(self).denied == old(self).denied,
            forall|q: Seq<char>|
                #[trigger] final(self)@.dom().contains(q) <==> old(self)@.dom().contains(q)
                    && !covered(q, path@),
            forall|q: Seq<char>|
                final(self)@.dom().contains(q) ==> final(self)@[q] == old(self)@[q],
    {
        self.remove_covered(path, true);
    }

    /// Writes a regular file at `path`: refused where the platform denies
    /// the write, and then nothing changes at all.
    pub fn write_file(&mut self, path: &str, content: Vec<u8>, mode: u32) -> (r: Result<(), ()>)
        requires
            old(self).wf(),
        ensures
            final(self).wf(),
            final(self).denied == old(self).denied,
            old(self).spec_denied(path@) ==> r is Err && *final(self) == *old(self),
            !old(self).spec_denied(path@) ==> r is Ok && final(self)@ == old(self)@.insert(
                path@,
                NodeView::File { content: content@, mode },
            ),
    {
        if self.is_denied(path) {
            return Err(());
        }
        self.set_node(path, FsNode::File { content, mode });
        Ok(())
    }

    /// Creates a directory node at `path`: refused where the platform
    /// denies the write, and then nothing changes at all.
    pub fn make_dir_node(&mut self, path: &str, mode: u32) -> (r: Result<(), ()>)
        requires
            old(self).wf(),
        ensures
            final(self).wf(),
            final(self).denied == old(self).denied,
            old(self).spec_denied(path@) ==> r is Err && *final(self) == *old(self),
            !old(self).spec_denied(path@) ==> r is Ok && final(self)@ == old(self)@.insert(
                path@,
                NodeView::Dir { mode },
            ),
    {
        if self.is_denied(path) {
            return Err(());
        }
        self.set_node(path, FsNode::Dir { mode });
        Ok(())
    }
}

/// A fresh node with the same contents and mode.
pub fn clone_node(n: &FsNode) -> (r: FsNode)
    ensures
        r@ == n@,
{
    match n {
        FsNode::File { content, mode } => FsNode::File {
            content: crate::text::copy_bytes(content),
            mode: *mode,
        },
        FsNode::Dir { mode } => FsNode::Dir { mode: *mode },
    }
}

} // verus!

use vstd::prelude::*;
use crate::fs_model::{
    clone_node, covered, denied_in, lemma_map_of_at, lemma_map_of_contains, under, FsNode, FsObj,
    FsSpace, NodeView,
};
use crate::resolve::last_slash_idx;
use crate::text::{chars_of_str, extend_from, string_of_chars, views_of};

verus! {

/// The final segment of a path: everything after the last slash, or the
/// whole path when it has none.
pub open spec fn spec_basename(p: Seq<char>) -> Seq<char> {
    p.skip(last_slash_idx(p) + 1)
}

/// Where a path inside the tree at `s` lands when the tree is recreated at
/// `d`: the prefix `s` replaced by `d`.
pub open spec fn rew(p: Seq<char>, s: Seq<char>, d: Seq<char>) -> Seq<char> {
    d + p.skip(s.len() as int)
}

/// The source path a rewrite target `q` came from.
pub open spec fn rt_src(s: Seq<char>, d: Seq<char>, q: Seq<char>) -> Seq<char> {
    s + q.skip(d.len() as int)
}

/// `q` is a target of recreating the tree at `s` over at `d`: it starts
/// with `d`, continues like a path, and its source exists in `m`.
pub open spec fn rt_dom(m: Map<Seq<char>, NodeView>, s: Seq<char>, d: Seq<char>, q: Seq<char>) -> bool {
    q.len() >= d.len() && q.subrange(0, d.len() as int) == d && (q.len() == d.len() || q[d.len() as int]
        == '/') && m.dom().contains(rt_src(s, d, q))
}

/// Recreating the tree at `s` over at `d` would write somewhere the
/// platform refuses.
pub open spec fn tree_denied(m: Map<Seq<char>, NodeView>, dn: Seq<String>, s: Seq<char>, d: Seq<char>) -> bool {
    exists|p: Seq<char>|
        #[trigger] m.dom().contains(p) && covered(p, s) && denied_in(dn, rew(p, s, d))
}

pub proof fn lemma_rt_dom_rew(m: Map<Seq<char>, NodeView>, s: Seq<char>, d: Seq<char>, p: Seq<char>)
    requires
        covered(p, s),
        m.dom().contains(p),
    ensures
        rt_dom(m, s, d, rew(p, s, d)),
        rt_src(s, d, rew(p, s, d)) == p,
    decreases 0int,
{
    let q = rew(p, s, d);
    assert(q.subrange(0, d.len() as int) =~= d);
    assert(q.skip(d.len() as int) =~= p.skip(s.len() as int));
    if p == s {
        assert(p.skip(s.len() as int) =~= Seq::<char>::empty());
        assert(q.len() == d.len());
    } else {
        assert(under(p, s));
        assert(q[d.len() as int] == p[s.len() as int]);
    }
    assert(rt_src(s, d, q) == s + p.skip(s.len() as int));
    assert(p.subrange(0, s.len() as int) == s || p == s);
    assert(s + p.skip(s.len() as int) =~= p);
}

pub proof fn lemma_rt_src_covered(m: Map<Seq<char>, NodeView>, s: Seq<char>, d: Seq<char>, q: Seq<char>)
    requires
        rt_dom(m, s, d, q),
    ensures
        covered(rt_src(s, d, q), s),
        m.dom().contains(rt_src(s, d, q)),
        rew(rt_src(s, d, q), s, d) == q,
    decreases 0int,
{
    let p = rt_src(s, d, q);
    assert(p.subrange(0, s.len() as int) =~= s);
    assert(p.skip(s.len() as int) =~= q.skip(d.len() as int));
    if q.len() == d.len() {
        assert(p =~= s);
    } else {
        assert(p[s.len() as int] == q[d.len() as int]);
        assert(under(p, s));
    }
    assert(rew(p, s, d) == d + q.skip(d.len() as int));
    assert(d + q.skip(d.len() as int) =~= q);
}

/// The pairs from `lo` on hold one whose path is `q`.
pub open spec fn pair_at(ps: Seq<FsObj>, lo: int, q: Seq<char>) -> bool {
    exists|i: int| lo <= i < ps.len() && #[trigger] ps[i].path@ == q
}

/// The map holds each pair from `lo` on, node and all.
pub open spec fn placed(m: Map<Seq<char>, NodeView>, ps: Seq<FsObj>, lo: int) -> bool {
    forall|i: int| lo <= i < ps.len() ==> m[#[trigger] ps[i].path@] == ps[i].node@
}

/// Some object among the first `bound` is the source of the target `q`.
pub open spec fn has_source(
    so: Seq<FsObj>,
    bound: int,
    s: Seq<char>,
    d: Seq<char>,
    q: Seq<char>,
) -> bool {
    exists|jj: int| 0 <= jj < bound && #[trigger] so[jj].path@ == rt_src(s, d, q)
}

/// The objects the tree at `src` would put at `dst`: each covered object,
/// its path rewritten, in the space's own order.
fn collect_covered(fs: &FsSpace, src: &Vec<char>, dst: &Vec<char>) -> (pairs: Vec<FsObj>)
    requires
        fs.wf(),
    ensures
        forall|i: int|
            0 <= i < pairs@.len() ==> rt_dom(fs@, src@, dst@, #[trigger] pairs@[i].path@)
                && pairs@[i].node@ == fs@[rt_src(src@, dst@, pairs@[i].path@)],
        forall|q: Seq<char>| rt_dom(fs@, src@, dst@, q) ==> pair_at(pairs@, 0, q),
        forall|i: int, j: int|
            0 <= i < j < pairs@.len() ==> pairs@[i].path@ != pairs@[j].path@,
{
    let s = src;
    let d = dst;
    let mut pairs: Vec<FsObj> = Vec::new();
    let ghost so = fs.objs@;
    let mut j: usize = 0;
    while j < fs.objs.len()
        invariant
            fs.wf(),
            j <= so.len(),
            so == fs.objs@,
            s@ == src@,
            d@ == dst@,
            forall|i: int|
                0 <= i < pairs@.len() ==> rt_dom(fs@, src@, dst@, #[trigger] pairs@[i].path@)
                    && pairs@[i].node@ == fs@[rt_src(src@, dst@, pairs@[i].path@)],
            forall|i: int|
                0 <= i < pairs@.len() ==> has_source(so, j as int, src@, dst@, #[trigger] pairs@[i].path@),
            forall|jj: int|
                0 <= jj < j && covered(#[trigger] so[jj].path@, src@) ==> pair_at(
                    pairs@,
                    0,
                    rew(so[jj].path@, src@, dst@),
                ),
            forall|i1: int, i2: int|
                0 <= i1 < i2 < pairs@.len() ==> pairs@[i1].path@ != pairs@[i2].path@,
        decreases fs.objs.len() - j,
    {
        let pv = chars_of_str(fs.objs[j].path.as_str());
        if crate::fs_model::covered_chars(&pv, s) {
            proof {
                lemma_map_of_at(so, j as int);
                lemma_rt_dom_rew(fs@, src@, dst@, so[j as int].path@);
            }
            let mut t: Vec<char> = Vec::new();
            extend_from(&mut t, d, 0);
            proof {
                assert(d@.skip(0) =~= d@);
            }
            extend_from(&mut t, &pv, s.len());
            let node = clone_node(&fs.objs[j].node);
            let ghost p0 = pairs@;
            let newpath = string_of_chars(&t);
            pairs.push(FsObj { path: newpath, node });
            proof {
                let pj = so[j as int].path@;
                assert(t@ == rew(pj, src@, dst@));
                assert(rt_src(src@, dst@, t@) == pj);
                assert forall|i1: int, i2: int|
                    0 <= i1 < i2 < pairs@.len() implies pairs@[i1].path@ != pairs@[i2].path@ by {
                    if i2 == pairs@.len() - 1 && pairs@[i1].path@ == pairs@[i2].path@ {
                        assert(has_source(so, j as int, src@, dst@, p0[i1].path@));
                        let jj = choose|jj: int|
                            0 <= jj < j && #[trigger] so[jj].path@ == rt_src(src@, dst@, p0[i1].path@);
                        assert(so[jj].path@ == pj);
                    }
                }
                assert forall|i: int|
                    0 <= i < pairs@.len() implies has_source(
                    so,
                    j + 1,
                    src@,
                    dst@,
                    #[trigger] pairs@[i].path@,
                ) by {
                    if i < pairs@.len() - 1 {
                        assert(has_source(so, j as int, src@, dst@, p0[i].path@));
                        let jj = choose|jj: int|
                            0 <= jj < j && #[trigger] so[jj].path@ == rt_src(src@, dst@, p0[i].path@);
                        assert(so[jj].path@ == rt_src(src@, dst@, pairs@[i].path@));
                    } else {
                        assert(so[j as int].path@ == rt_src(src@, dst@, pairs@[i].path@));
                    }
                }
                assert forall|jj: int|
                    0 <= jj < j + 1 && covered(#[trigger] so[jj].path@, src@) implies pair_at(
                    pairs@,
                    0,
                    rew(so[jj].path@, src@, dst@),
                ) by {
                    if jj == j {
                        assert(pairs@[pairs@.len() - 1].path@ == rew(so[jj].path@, src@, dst@));
                    } else {
                        assert(pair_at(p0, 0, rew(so[jj].path@, src@, dst@)));
                        let i = choose|i: int|
                            0 <= i < p0.len() && #[trigger] p0[i].path@ == rew(
                                so[jj].path@,
                                src@,
                                dst@,
                            );
                        assert(pairs@[i].path@ == rew(so[jj].path@, src@, dst@));
                    }
                }
            }
        } else {
            proof {
                let ghost p0 = pairs@;
                assert forall|jj: int|
                    0 <= jj < j + 1 && covered(#[trigger] so[jj].path@, src@) implies pair_at(
                    pairs@,
                    0,
                    rew(so[jj].path@, src@, dst@),
                ) by {
                    assert(jj < j);
                }
            }
        }
        j = j + 1;
    }
    proof {
        assert forall|q: Seq<char>| rt_dom(fs@, src@, dst@, q) implies pair_at(pairs@, 0, q) by {
            lemma_rt_src_covered(fs@, src@, dst@, q);
            let sp = rt_src(src@, dst@, q);
            lemma_map_of_contains(so, sp);
            let jj = choose|jj: int| 0 <= jj < so.len() && so[jj].path@ == sp;
            assert(covered(so[jj].path@, src@));
            assert(rew(so[jj].path@, src@, dst@) == q);
        }
    }
    pairs
}

/// Puts every collected object in place, overwriting what stood at any of
/// their paths.
fn insert_pairs(fs: &mut FsSpace, pairs: Vec<FsObj>)
    requires
        old(fs).wf(),
        forall|i1: int, i2: int|
            0 <= i1 < i2 < pairs@.len() ==> pairs@[i1].path@ != pairs@[i2].path@,
    ensures
        final(fs).wf(),
        final(fs).denied == old(fs).denied,
        forall|q: Seq<char>|
            #[trigger] final(fs)@.dom().contains(q) <==> old(fs)@.dom().contains(q) || pair_at(
                pairs@,
                0,
                q,
            ),
        placed(final(fs)@, pairs@, 0),
        forall|q: Seq<char>|
            final(fs)@.dom().contains(q) && !pair_at(pairs@, 0, q) ==> final(fs)@[q] == old(fs)@[q],
{
    let ghost p0 = pairs@;
    let mut pairs = pairs;
    while pairs.len() > 0
        invariant
            fs.wf(),
            fs.denied == old(fs).denied,
            pairs@.len() <= p0.len(),
            pairs@ == p0.subrange(0, pairs@.len() as int),
            forall|i1: int, i2: int| 0 <= i1 < i2 < p0.len() ==> p0[i1].path@ != p0[i2].path@,
            forall|q: Seq<char>|
                #[trigger] fs@.dom().contains(q) <==> old(fs)@.dom().contains(q) || pair_at(
                    p0,
                    pairs@.len() as int,
                    q,
                ),
            placed(fs@, p0, pairs@.len() as int),
            forall|q: Seq<char>|
                fs@.dom().contains(q) && !pair_at(p0, pairs@.len() as int, q) ==> fs@[q] == old(
                    fs,
                )@[q],
        decreases pairs@.len(),
    {
        let ghost t = pairs@.len() as int;
        let ghost m0 = fs@;
        let o = pairs.pop().unwrap();
        proof {
            assert(p0.subrange(0, t).drop_last() =~= p0.subrange(0, t - 1));
            assert(o == p0[t - 1]);
        }
        let FsObj { path, node } = o;
        let ghost pk = p0[t - 1].path@;
        let ghost nv = p0[t - 1].node@;
        fs.set_node(path.as_str(), node);
        proof {
            assert(fs@ == m0.insert(pk, nv));
            assert forall|q: Seq<char>|
                #[trigger] fs@.dom().contains(q) <==> old(fs)@.dom().contains(q) || pair_at(
                    p0,
                    t - 1,
                    q,
                ) by {
                if q == pk {
                    assert(p0[t - 1].path@ == q);
                    assert(pair_at(p0, t - 1, q));
                } else {
                    assert(fs@.dom().contains(q) == m0.dom().contains(q));
                    if pair_at(p0, t - 1, q) {
                        let i = choose|i: int| t - 1 <= i < p0.len() && #[trigger] p0[i].path@ == q;
                        assert(i >= t);
                        assert(pair_at(p0, t, q));
                    }
                    if pair_at(p0, t, q) {
                        assert(pair_at(p0, t - 1, q));
                    }
                }
            }
            assert forall|i: int|
                t - 1 <= i < p0.len() implies fs@[#[trigger] p0[i].path@] == p0[i].node@ by {
                if i == t - 1 {
                } else {
                    assert(p0[i].path@ != pk);
                    assert(placed(m0, p0, t));
                    assert(m0[p0[i].path@] == p0[i].node@);
                }
            }
            assert forall|q: Seq<char>|
                fs@.dom().contains(q) && !pair_at(p0, t - 1, q) implies fs@[q] == old(fs)@[q] by {
                if q != pk {
                    assert(!pair_at(p0, t, q)) by {
                        if pair_at(p0, t, q) {
                            assert(pair_at(p0, t - 1, q));
                        }
                    }
                    assert(m0.dom().contains(q));
                } else {
                    assert(p0[t - 1].path@ == q);
                    assert(pair_at(p0, t - 1, q));
                }
            }
        }
    }
    proof {
        assert(pairs@.len() == 0);
    }
}

impl crate::shell::Shell {
    /// Copies one regular file: the full content is read and rewritten at
    /// the destination and the permission bits are applied after the write,
    /// so the new file matches the old byte for byte and bit for bit.
    pub fn copy_file(&self, fs: &mut FsSpace, source: &str, destination: &str) -> (r: Result<
        (),
        (),
    >)
        requires
            old(fs).wf(),
        ensures
            final(fs).wf(),
            final(fs).denied == old(fs).denied,
            !(old(fs)@.dom().contains(source@) && old(fs)@[source@] is File) ==> r is Err
                && *final(fs) == *old(fs),
            old(fs)@.dom().contains(source@) && old(fs)@[source@] is File && old(fs).spec_denied(
                destination@,
            ) ==> r is Err && *final(fs) == *old(fs),
            old(fs)@.dom().contains(source@) && old(fs)@[source@] is File && !old(fs).spec_denied(
                destination@,
            ) ==> r is Ok && final(fs)@ == old(fs)@.insert(destination@, old(fs)@[source@]),
    {
        let content = match fs.read(source) {
            Some(c) => c,
            None => {
                return Err(());
            },
        };
        let mode = match fs.find(source) {
            Some(k) => match &fs.objs[k].node {
                FsNode::File { mode, .. } => *mode,
                FsNode::Dir { mode } => *mode,
            },
            None => {
                return Err(());
            },
        };
        match fs.write_file(destination, content, mode) {
            Ok(_) => {
                proof {
                    assert(old(fs)@[source@] matches NodeView::File { content: c, mode: m }
                        ==> final(fs)@ == old(fs)@.insert(destination@, old(fs)@[source@]));
                }
                Ok(())
            },
            Err(_) => Err(()),
        }
    }

    /// Recreates the whole tree at `source` over at `destination`: every
    /// covered directory and file reappears under the rewritten path with
    /// its contents and permission bits, and nothing else moves.  Refused
    /// as a whole, with nothing written, when any target is denied.
    pub fn copy_dir_recursive(&self, fs: &mut FsSpace, source: &str, destination: &str) -> (r:
        Result<(), ()>)
        requires
            old(fs).wf(),
        ensures
            final(fs).wf(),
            final(fs).denied == old(fs).denied,
            tree_denied(old(fs)@, old(fs).denied@, source@, destination@) ==> r is Err && *final(fs) == *old(fs),
            !tree_denied(old(fs)@, old(fs).denied@, source@, destination@) ==> r is Ok && {
                &&& forall|q: Seq<char>|
                    #[trigger] final(fs)@.dom().contains(q) <==> old(fs)@.dom().contains(q)
                        || rt_dom(old(fs)@, source@, destination@, q)
                &&& forall|q: Seq<char>|
                    rt_dom(old(fs)@, source@, destination@, q) ==> final(fs)@[q] == old(fs)@[rt_src(
                        source@,
                        destination@,
                        q,
                    )]
                &&& forall|q: Seq<char>|
                    final(fs)@.dom().contains(q) && !rt_dom(old(fs)@, source@, destination@, q)
                        ==> final(fs)@[q] == old(fs)@[q]
            },
    {
        let sv = chars_of_str(source);
        let dv = chars_of_str(destination);
        let pairs = collect_covered(fs, &sv, &dv);
        let mut k: usize = 0;
        while k < pairs.len()
            invariant
                fs.wf(),
                *fs == *old(fs),
                sv@ == source@,
                dv@ == destination@,
                k <= pairs@.len(),
                forall|i: int|
                    0 <= i < pairs@.len() ==> rt_dom(fs@, source@, destination@, #[trigger] pairs@[i].path@)
                        && pairs@[i].node@ == fs@[rt_src(source@, destination@, pairs@[i].path@)],
                forall|q: Seq<char>| rt_dom(fs@, source@, destination@, q) ==> pair_at(pairs@, 0, q),
                forall|i1: int, i2: int|
                    0 <= i1 < i2 < pairs@.len() ==> pairs@[i1].path@ != pairs@[i2].path@,
                forall|i: int| 0 <= i < k ==> !fs.spec_denied(#[trigger] pairs@[i].path@),
            decreases pairs.len() - k,
        {
            if fs.is_denied(pairs[k].path.as_str()) {
                proof {
                    let q = pairs@[k as int].path@;
                    lemma_rt_src_covered(fs@, source@, destination@, q);
                    let p = rt_src(source@, destination@, q);
                    assert(fs@.dom().contains(p) && covered(p, source@) && fs.spec_denied(
                        rew(p, source@, destination@),
                    ));
                }
                return Err(());
            }
            k = k + 1;
        }
        proof {
            if tree_denied(fs@, fs.denied@, source@, destination@) {
                let p = choose|p: Seq<char>|
                    #[trigger] fs@.dom().contains(p) && covered(p, source@) && denied_in(
                        fs.denied@,
                        rew(p, source@, destination@),
                    );
                lemma_rt_dom_rew(fs@, source@, destination@, p);
                assert(pair_at(pairs@, 0, rew(p, source@, destination@)));
                let i = choose|i: int|
                    0 <= i < pairs@.len() && #[trigger] pairs@[i].path@ == rew(
                        p,
                        source@,
                        destination@,
                    );
                assert(!fs.spec_denied(pairs@[i].path@));
            }
        }
        let ghost m0 = fs@;
        let ghost dn0 = fs.denied@;
        insert_pairs(fs, pairs);
        proof {
            assert forall|q: Seq<char>|
                #[trigger] fs@.dom().contains(q) <==> m0.dom().contains(q) || rt_dom(
                    m0,
                    source@,
                    destination@,
                    q,
                ) by {
                if fs@.dom().contains(q) && !m0.dom().contains(q) {
                    assert(pair_at(pairs@, 0, q));
                    let i = choose|i: int| 0 <= i < pairs@.len() && #[trigger] pairs@[i].path@ == q;
                    assert(rt_dom(m0, source@, destination@, q));
                }
                if rt_dom(m0, source@, destination@, q) {
                    assert(pair_at(pairs@, 0, q));
                }
            }
            assert forall|q: Seq<char>|
                rt_dom(m0, source@, destination@, q) implies fs@[q] == m0[rt_src(
                source@,
                destination@,
                q,
            )] by {
                assert(pair_at(pairs@, 0, q));
                let i = choose|i: int| 0 <= i < pairs@.len() && #[trigger] pairs@[i].path@ == q;
                assert(placed(fs@, pairs@, 0));
                assert(fs@[pairs@[i].path@] == pairs@[i].node@);
            }
            assert forall|q: Seq<char>|
                fs@.dom().contains(q) && !rt_dom(m0, source@, destination@, q) implies fs@[q]
                == m0[q] by {
                if pair_at(pairs@, 0, q) {
                    let i = choose|i: int| 0 <= i < pairs@.len() && #[trigger] pairs@[i].path@ == q;
                    assert(rt_dom(m0, source@, destination@, q));
                }
            }
        }
        Ok(())
    }

    /// Moves the whole tree at `source` to `destination` in one step, the
    /// way a same-filesystem rename does: everything covered reappears at
    /// the rewritten path and disappears from the old one.
    pub fn rename_tree(&self, fs: &mut FsSpace, source: &str, destination: &str)
        requires
            old(fs).wf(),
        ensures
            final(fs).wf(),
            final(fs).denied == old(fs).denied,
            forall|q: Seq<char>|
                #[trigger] final(fs)@.dom().contains(q) <==> (old(fs)@.dom().contains(q) && !covered(
                    q,
                    source@,
                )) || rt_dom(old(fs)@, source@, destination@, q),
            forall|q: Seq<char>|
                rt_dom(old(fs)@, source@, destination@, q) ==> final(fs)@[q] == old(fs)@[rt_src(
                    source@,
                    destination@,
                    q,
                )],
            forall|q: Seq<char>|
                final(fs)@.dom().contains(q) && !rt_dom(old(fs)@, source@, destination@, q)
                    ==> final(fs)@[q] == old(fs)@[q],
    {
        let sv = chars_of_str(source);
        let dv = chars_of_str(destination);
        let ghost m0 = fs@;
        let pairs = collect_covered(fs, &sv, &dv);
        fs.remove_tree(source);
        let ghost mid = fs@;
        insert_pairs(fs, pairs);
        proof {
            assert forall|q: Seq<char>|
                #[trigger] fs@.dom().contains(q) <==> (m0.dom().contains(q) && !covered(q, source@))
                    || rt_dom(m0, source@, destination@, q) by {
                if fs@.dom().contains(q) && !mid.dom().contains(q) {
                    assert(pair_at(pairs@, 0, q));
                    let i = choose|i: int| 0 <= i < pairs@.len() && #[trigger] pairs@[i].path@ == q;
                    assert(rt_dom(m0, source@, destination@, q));
                }
                if rt_dom(m0, source@, destination@, q) {
                    assert(pair_at(pairs@, 0, q));
                }
            }
            assert forall|q: Seq<char>|
                rt_dom(m0, source@, destination@, q) implies fs@[q] == m0[rt_src(
                source@,
                destination@,
                q,
            )] by {
                assert(pair_at(pairs@, 0, q));
                let i = choose|i: int| 0 <= i < pairs@.len() && #[trigger] pairs@[i].path@ == q;
                assert(placed(fs@, pairs@, 0));
                assert(fs@[pairs@[i].path@] == pairs@[i].node@);
            }
            assert forall|q: Seq<char>|
                fs@.dom().contains(q) && !rt_dom(m0, source@, destination@, q) implies fs@[q]
                == m0[q] by {
                if pair_at(pairs@, 0, q) {
                    let i = choose|i: int| 0 <= i < pairs@.len() && #[trigger] pairs@[i].path@ == q;
                    assert(rt_dom(m0, source@, destination@, q));
                }
                assert(mid.dom().contains(q) && mid[q] == m0[q]);
            }
        }
    }

    /// Where one source lands at the destination: inside it under the
    /// source's basename when the destination is an existing directory,
    /// at the destination itself otherwise.
    pub fn get_destination_path(&self, fs: &FsSpace, source: &str, destination: &str) -> (r:
        String)
        requires
            fs.wf(),
        ensures
            r@ == spec_dest_path(fs@, source@, destination@),
    {
        if fs.is_dir(destination) {
            let sv = chars_of_str(source);
            let base = basename_chars(&sv);
            let dv = chars_of_str(destination);
            let mut out: Vec<char>;
            if dv.len() == 1 && dv[0] == '/' {
                out = Vec::new();
                out.push('/');
                proof {
                    assert(out@ =~= seq!['/']);
                }
            } else {
                out = dv;
                out.push('/');
                proof {
                    assert(out@ =~= destination@ + seq!['/']);
                }
            }
            extend_from(&mut out, &base, 0);
            proof {
                assert(base@.skip(0) =~= base@);
            }
            string_of_chars(&out)
        } else {
            String::from_str(destination)
        }
    }
}


/// The last path segment, as a fresh vector.
pub fn basename_chars(v: &Vec<char>) -> (r: Vec<char>)
    ensures
        r@ == spec_basename(v@),
{
    let mut k: usize = v.len();
    while k > 0
        invariant
            k <= v@.len(),
            forall|j: int| k <= j < v@.len() ==> v@[j] != '/',
        decreases k,
    {
        if v[k - 1] == '/' {
            proof {
                crate::resolve::lemma_last_slash_at(v@, k - 1);
            }
            let mut r: Vec<char> = Vec::new();
            extend_from(&mut r, v, k);
            return r;
        }
        k = k - 1;
    }
    proof {
        crate::resolve::lemma_no_slash(v@);
    }
    let mut r: Vec<char> = Vec::new();
    extend_from(&mut r, v, 0);
    proof {
        assert(v@.skip(0) =~= v@);
    }
    r
}

/// Where one source lands: inside the destination directory under the
/// source's own name when the destination is a directory, at the
/// destination itself otherwise.
pub open spec fn spec_dest_path(
    m: Map<Seq<char>, NodeView>,
    src: Seq<char>,
    dstarg: Seq<char>,
) -> Seq<char> {
    if m.dom().contains(dstarg) && m[dstarg] is Dir {
        crate::resolve::join_under(dstarg, spec_basename(src))
    } else {
        dstarg
    }
}

/// The whole tree at `s` recreated over at `d`, on top of everything that
/// was already there.
pub open spec fn copy_tree_map(
    m: Map<Seq<char>, NodeView>,
    s: Seq<char>,
    d: Seq<char>,
) -> Map<Seq<char>, NodeView> {
    Map::new(
        |q: Seq<char>| m.dom().contains(q) || rt_dom(m, s, d, q),
        |q: Seq<char>|
            if rt_dom(m, s, d, q) {
                m[rt_src(s, d, q)]
            } else {
                m[q]
            },
    )
}

/// The map with the tree at `s` taken out.
pub open spec fn minus_covered(m: Map<Seq<char>, NodeView>, s: Seq<char>) -> Map<
    Seq<char>,
    NodeView,
> {
    Map::new(|q: Seq<char>| m.dom().contains(q) && !covered(q, s), |q: Seq<char>| m[q])
}

/// The whole tree at `s` renamed to `d` in one step.
pub open spec fn move_tree_map(
    m: Map<Seq<char>, NodeView>,
    s: Seq<char>,
    d: Seq<char>,
) -> Map<Seq<char>, NodeView> {
    Map::new(
        |q: Seq<char>| (m.dom().contains(q) && !covered(q, s)) || rt_dom(m, s, d, q),
        |q: Seq<char>|
            if rt_dom(m, s, d, q) {
                m[rt_src(s, d, q)]
            } else {
                m[q]
            },
    )
}

pub open spec fn msg_cp_stat(src: Seq<char>) -> Seq<char> {
    "cp: cannot stat '"@ + src + "': No such file or directory"@
}

pub open spec fn msg_cp_omit(src: Seq<char>) -> Seq<char> {
    "cp: -r not specified; omitting directory '"@ + src + "'"@
}

pub open spec fn msg_cp_write(dest: Seq<char>) -> Seq<char> {
    "cp: cannot write '"@ + dest + "': Operation not permitted"@
}

pub open spec fn msg_cp_target(dst: Seq<char>) -> Seq<char> {
    "cp: target '"@ + dst + "' is not a directory"@
}

pub open spec fn msg_mv_stat(src: Seq<char>) -> Seq<char> {
    "mv: cannot stat '"@ + src + "': No such file or directory"@
}

pub open spec fn msg_mv_same(src: Seq<char>, dest: Seq<char>) -> Seq<char> {
    "mv: '"@ + src + "' and '"@ + dest + "' are the same file"@
}

pub open spec fn msg_mv_write(dest: Seq<char>) -> Seq<char> {
    "mv: cannot write '"@ + dest + "': Operation not permitted"@
}

pub open spec fn msg_mv_target(dst: Seq<char>) -> Seq<char> {
    "mv: target '"@ + dst + "' is not a directory"@
}

/// Three pieces of text joined into one line.
pub fn cat3(a: &str, b: &str, c: &str) -> (r: String)
    ensures
        r@ == a@ + b@ + c@,
{
    let mut out = String::from_str(a);
    out.append(b);
    out.append(c);
    out
}

/// Five pieces of text joined into one line.
pub fn cat5(a: &str, b: &str, c: &str, d: &str, e: &str) -> (r: String)
    ensures
        r@ == a@ + b@ + c@ + d@ + e@,
{
    let mut out = String::from_str(a);
    out.append(b);
    out.append(c);
    out.append(d);
    out.append(e);
    out
}

/// What `cp` does with one resolved source: a missing source or a directory
/// without the recursive flag is reported and skipped, a refused write is
/// reported, and otherwise the file or the whole tree is copied to where
/// `spec_dest_path` points.
pub open spec fn cp_copy_one(
    m: Map<Seq<char>, NodeView>,
    dn: Seq<String>,
    src: Seq<char>,
    dstarg: Seq<char>,
    recursive: bool,
) -> (Map<Seq<char>, NodeView>, Seq<Seq<char>>) {
    if !m.dom().contains(src) {
        (m, seq![msg_cp_stat(src)])
    } else {
        let dest = spec_dest_path(m, src, dstarg);
        if m[src] is Dir {
            if !recursive {
                (m, seq![msg_cp_omit(src)])
            } else if tree_denied(m, dn, src, dest) {
                (m, seq![msg_cp_write(dest)])
            } else {
                (copy_tree_map(m, src, dest), seq![])
            }
        } else {
            if denied_in(dn, dest) {
                (m, seq![msg_cp_write(dest)])
            } else {
                (m.insert(dest, m[src]), seq![])
            }
        }
    }
}

/// `cp` over a list of resolved sources, left to right, each source's
/// outcome independent of the others' failures.
pub open spec fn cp_fold(
    m: Map<Seq<char>, NodeView>,
    dn: Seq<String>,
    srcs: Seq<Seq<char>>,
    dstarg: Seq<char>,
    recursive: bool,
) -> (Map<Seq<char>, NodeView>, Seq<Seq<char>>)
    decreases srcs.len(),
{
    if srcs.len() == 0 {
        (m, Seq::empty())
    } else {
        let prev = cp_fold(m, dn, srcs.drop_last(), dstarg, recursive);
        let step = cp_copy_one(prev.0, dn, srcs.last(), dstarg, recursive);
        (step.0, prev.1 + step.1)
    }
}

/// What `mv` does with one resolved source: report a missing source or a
/// source equal to its destination; otherwise rename in one step when the
/// platform can, and fall back to copy-then-delete when it cannot, never
/// deleting the source unless the copy went through.
pub open spec fn mv_move_one(
    m: Map<Seq<char>, NodeView>,
    dn: Seq<String>,
    src: Seq<char>,
    dstarg: Seq<char>,
    rename_works: bool,
) -> (Map<Seq<char>, NodeView>, Seq<Seq<char>>) {
    if !m.dom().contains(src) {
        (m, seq![msg_mv_stat(src)])
    } else {
        let dest = spec_dest_path(m, src, dstarg);
        if src == dest {
            (m, seq![msg_mv_same(src, dest)])
        } else if rename_works {
            (move_tree_map(m, src, dest), seq![])
        } else if m[src] is Dir {
            if tree_denied(m, dn, src, dest) {
                (m, seq![msg_mv_write(dest)])
            } else {
                (minus_covered(copy_tree_map(m, src, dest), src), seq![])
            }
        } else {
            if denied_in(dn, dest) {
                (m, seq![msg_mv_write(dest)])
            } else {
                (m.insert(dest, m[src]).remove(src), seq![])
            }
        }
    }
}

/// `mv` over a list of resolved sources, left to right.
pub open spec fn mv_fold(
    m: Map<Seq<char>, NodeView>,
    dn: Seq<String>,
    srcs: Seq<Seq<char>>,
    dstarg: Seq<char>,
    rename_works: bool,
) -> (Map<Seq<char>, NodeView>, Seq<Seq<char>>)
    decreases srcs.len(),
{
    if srcs.len() == 0 {
        (m, Seq::empty())
    } else {
        let prev = mv_fold(m, dn, srcs.drop_last(), dstarg, rename_works);
        let step = mv_move_one(prev.0, dn, srcs.last(), dstarg, rename_works);
        (step.0, prev.1 + step.1)
    }
}

/// An argument `cp` reads as its recursive flag rather than a path.
pub open spec fn is_cp_flag(a: Seq<char>) -> bool {
    a == "-r"@ || a == "-R"@ || a == "--recursive"@
}

/// The arguments with the flags taken out: the paths, in order.
pub open spec fn drop_flags(args: Seq<Seq<char>>) -> Seq<Seq<char>>
    decreases args.len(),
{
    if args.len() == 0 {
        Seq::empty()
    } else if is_cp_flag(args.last()) {
        drop_flags(args.drop_last())
    } else {
        drop_flags(args.drop_last()).push(args.last())
    }
}

/// Some argument is the recursive flag.
pub open spec fn any_flag(args: Seq<Seq<char>>) -> bool {
    exists|i: int| 0 <= i < args.len() && is_cp_flag(#[trigger] args[i])
}

/// Each path resolved against the shell state.
pub open spec fn resolve_all(paths: Seq<Seq<char>>, cwd: Seq<char>, home: Seq<char>) -> Seq<
    Seq<char>,
> {
    paths.map_values(|p: Seq<char>| crate::resolve::spec_resolve(p, cwd, home))
}


/// What the whole `cp` invocation does: flags parsed anywhere among the
/// arguments, too few paths or a multi-source non-directory destination
/// refused before any work, and otherwise each source handled in turn.
pub open spec fn cp_command(
    m: Map<Seq<char>, NodeView>,
    dn: Seq<String>,
    cwd: Seq<char>,
    home: Seq<char>,
    args: Seq<Seq<char>>,
) -> (Map<Seq<char>, NodeView>, Seq<Seq<char>>) {
    let recursive = any_flag(args);
    let paths = drop_flags(args);
    if paths.len() < 2 {
        (m, seq!["ru-shell: "@ + "cp: missing file operand"@, "Usage: cp [-r] SOURCE... DESTINATION"@])
    } else {
        let dstarg = crate::resolve::spec_resolve(paths.last(), cwd, home);
        let srcs = resolve_all(paths.drop_last(), cwd, home);
        if srcs.len() > 1 && !(m.dom().contains(dstarg) && m[dstarg] is Dir) {
            (m, seq![msg_cp_target(dstarg)])
        } else {
            cp_fold(m, dn, srcs, dstarg, recursive)
        }
    }
}

/// What the whole `mv` invocation does: too few paths or a multi-source
/// non-directory destination refused before any work, and otherwise each
/// source moved in turn, by rename when the platform can and by
/// copy-then-delete when it cannot.
pub open spec fn mv_command(
    m: Map<Seq<char>, NodeView>,
    dn: Seq<String>,
    cwd: Seq<char>,
    home: Seq<char>,
    args: Seq<Seq<char>>,
    rename_works: bool,
) -> (Map<Seq<char>, NodeView>, Seq<Seq<char>>) {
    if args.len() < 2 {
        (m, seq!["ru-shell: "@ + "mv: missing file operand"@, "Usage: mv SOURCE... DESTINATION"@])
    } else {
        let dstarg = crate::resolve::spec_resolve(args.last(), cwd, home);
        let srcs = resolve_all(args.drop_last(), cwd, home);
        if srcs.len() > 1 && !(m.dom().contains(dstarg) && m[dstarg] is Dir) {
            (m, seq![msg_mv_target(dstarg)])
        } else {
            mv_fold(m, dn, srcs, dstarg, rename_works)
        }
    }
}

impl crate::shell::Shell {
    /// The `cp` command over the filesystem state: copies each source to
    /// the destination, recursively when asked, reporting each failure and
    /// going on with the next source.  Exactly `cp_command` happens.
    pub fn handle_copy_command(&self, args: Vec<String>, fs: &mut FsSpace) -> (msgs: Vec<String>)
        requires
            old(fs).wf(),
        ensures
            final(fs).wf(),
            final(fs).denied@ == old(fs).denied@,
            ({
                let full = cp_command(
                    old(fs)@,
                    old(fs).denied@,
                    self.abs_cwd@,
                    self.home_dir@,
                    views_of(args@),
                );
                final(fs)@ == full.0 && views_of(msgs@) == full.1
            }),
    {
        let mut recursive = false;
        let mut paths: Vec<String> = Vec::new();
        let n = args.len();
        let mut i: usize = 0;
        while i < n
            invariant
                i <= n,
                n == args@.len(),
                recursive == any_flag(views_of(args@.subrange(0, i as int))),
                views_of(paths@) == drop_flags(views_of(args@.subrange(0, i as int))),
            decreases n - i,
        {
            let ghost prev = views_of(args@.subrange(0, i as int));
            let a = args[i].as_str();
            let isflag = crate::text::str_eq(a, "-r") || crate::text::str_eq(a, "-R")
                || crate::text::str_eq(a, "--recursive");
            let ghost p0 = paths@;
            if isflag {
                recursive = true;
            } else {
                paths.push(args[i].clone());
            }
            proof {
                let cur = views_of(args@.subrange(0, i + 1));
                assert(args@.subrange(0, i + 1).drop_last() =~= args@.subrange(0, i as int));
                assert(cur.drop_last() =~= prev);
                assert(cur.last() == args@[i as int]@);
                assert(is_cp_flag(args@[i as int]@) == isflag);
                assert(any_flag(cur) == (any_flag(prev) || isflag)) by {
                    if any_flag(cur) && !isflag {
                        let ii = choose|ii: int|
                            0 <= ii < cur.len() && is_cp_flag(#[trigger] cur[ii]);
                        if ii < prev.len() {
                            assert(is_cp_flag(prev[ii]));
                        }
                    }
                    if any_flag(prev) {
                        let ii = choose|ii: int|
                            0 <= ii < prev.len() && is_cp_flag(#[trigger] prev[ii]);
                        assert(is_cp_flag(cur[ii]));
                    }
                    if isflag {
                        assert(is_cp_flag(cur[cur.len() - 1]));
                    }
                }
                if !isflag {
                    assert(views_of(paths@) =~= views_of(p0).push(args@[i as int]@));
                }
            }
            i = i + 1;
        }
        proof {
            assert(args@.subrange(0, n as int) =~= args@);
        }
        if paths.len() < 2 {
            let mut msgs: Vec<String> = Vec::new();
            msgs.push(self.error("cp: missing file operand", true));
            msgs.push(String::from_str("Usage: cp [-r] SOURCE... DESTINATION"));
            proof {
                let full = cp_command(
                    old(fs)@,
                    old(fs).denied@,
                    self.abs_cwd@,
                    self.home_dir@,
                    views_of(args@),
                );
                assert(views_of(msgs@) =~= full.1);
            }
            return msgs;
        }
        let dstarg = self.resolve_path(paths[paths.len() - 1].as_str());
        let ghost pathsv = views_of(paths@);
        proof {
            assert(pathsv.last() == paths@[paths@.len() - 1]@);
        }
        let nsrc = paths.len() - 1;
        let mut srcs: Vec<String> = Vec::new();
        let mut i: usize = 0;
        while i < nsrc
            invariant
                i <= nsrc,
                nsrc == paths@.len() - 1,
                pathsv == views_of(paths@),
                views_of(srcs@) == resolve_all(
                    pathsv.drop_last().subrange(0, i as int),
                    self.abs_cwd@,
                    self.home_dir@,
                ),
            decreases nsrc - i,
        {
            let ghost s0 = srcs@;
            let r = self.resolve_path(paths[i].as_str());
            let ghost rv = r@;
            srcs.push(r);
            proof {
                assert(pathsv.drop_last()[i as int] == paths@[i as int]@);
                assert(views_of(srcs@) =~= views_of(s0).push(rv));
                assert(views_of(srcs@) =~= resolve_all(
                    pathsv.drop_last().subrange(0, i + 1),
                    self.abs_cwd@,
                    self.home_dir@,
                ));
            }
            i = i + 1;
        }
        proof {
            assert(pathsv.drop_last().subrange(0, nsrc as int) =~= pathsv.drop_last());
        }
        let ghost srcsv = views_of(srcs@);
        let ghost m0 = fs@;
        let ghost dn = fs.denied@;
        if srcs.len() > 1 && !fs.is_dir(dstarg.as_str()) {
            let mut msgs: Vec<String> = Vec::new();
            msgs.push(cat3("cp: target '", dstarg.as_str(), "' is not a directory"));
            proof {
                let full = cp_command(m0, dn, self.abs_cwd@, self.home_dir@, views_of(args@));
                assert(views_of(msgs@) =~= full.1);
            }
            return msgs;
        }
        let mut msgs: Vec<String> = Vec::new();
        let mut k: usize = 0;
        while k < srcs.len()
            invariant
                fs.wf(),
                fs.denied@ == dn,
                k <= srcs@.len(),
                srcsv == views_of(srcs@),
                cp_fold(m0, dn, srcsv.subrange(0, k as int), dstarg@, recursive).0 == fs@,
                cp_fold(m0, dn, srcsv.subrange(0, k as int), dstarg@, recursive).1 == views_of(
                    msgs@,
                ),
            decreases srcs.len() - k,
        {
            let ghost mk = fs@;
            let ghost msgs0 = views_of(msgs@);
            let src = srcs[k].as_str();
            proof {
                assert(srcsv[k as int] == src@);
                assert(srcsv.subrange(0, k + 1).drop_last() =~= srcsv.subrange(0, k as int));
            }
            if !fs.exists_path(src) {
                msgs.push(cat3("cp: cannot stat '", src, "': No such file or directory"));
                proof {
                    assert(views_of(msgs@) =~= msgs0.push(msg_cp_stat(src@)));
                    assert(msgs0 + seq![msg_cp_stat(src@)] =~= msgs0.push(msg_cp_stat(src@)));
                }
            } else {
                let dest = self.get_destination_path(fs, src, dstarg.as_str());
                let is_dir_src = fs.is_dir(src);
                if is_dir_src {
                    if !recursive {
                        msgs.push(cat3("cp: -r not specified; omitting directory '", src, "'"));
                        proof {
                            assert(views_of(msgs@) =~= msgs0.push(msg_cp_omit(src@)));
                            assert(msgs0 + seq![msg_cp_omit(src@)] =~= views_of(msgs@));
                        }
                    } else {
                        match self.copy_dir_recursive(fs, src, dest.as_str()) {
                            Ok(_) => {
                                proof {
                                    assert(fs@ =~= copy_tree_map(mk, src@, dest@));
                                    assert(msgs0 + Seq::<Seq<char>>::empty() =~= msgs0);
                                }
                            },
                            Err(_) => {
                                msgs.push(
                                    cat3("cp: cannot write '", dest.as_str(), "': Operation not permitted"),
                                );
                                proof {
                                    assert(views_of(msgs@) =~= msgs0.push(msg_cp_write(dest@)));
                                    assert(msgs0 + seq![msg_cp_write(dest@)] =~= views_of(msgs@));
                                }
                            },
                        }
                    }
                } else {
                    match self.copy_file(fs, src, dest.as_str()) {
                        Ok(_) => {
                            proof {
                                assert(msgs0 + Seq::<Seq<char>>::empty() =~= msgs0);
                            }
                        },
                        Err(_) => {
                            msgs.push(
                                cat3("cp: cannot write '", dest.as_str(), "': Operation not permitted"),
                            );
                            proof {
                                assert(views_of(msgs@) =~= msgs0.push(msg_cp_write(dest@)));
                                assert(msgs0 + seq![msg_cp_write(dest@)] =~= views_of(msgs@));
                            }
                        },
                    }
                }
            }
            k = k + 1;
        }
        proof {
            assert(srcsv.subrange(0, srcs@.len() as int) =~= srcsv);
        }
        msgs
    }

    /// The `mv` command over the filesystem state: moves each source to the
    /// destination by rename when the platform can (`rename_works`), and by
    /// copy-then-delete when it cannot, reporting each failure and going on
    /// with the next source.  Exactly `mv_command` happens.
    pub fn handle_move_command(
        &self,
        args: Vec<String>,
        fs: &mut FsSpace,
        rename_works: bool,
    ) -> (msgs: Vec<String>)
        requires
            old(fs).wf(),
        ensures
            final(fs).wf(),
            final(fs).denied@ == old(fs).denied@,
            ({
                let full = mv_command(
                    old(fs)@,
                    old(fs).denied@,
                    self.abs_cwd@,
                    self.home_dir@,
                    views_of(args@),
                    rename_works,
                );
                final(fs)@ == full.0 && views_of(msgs@) == full.1
            }),
    {
        if args.len() < 2 {
            let mut msgs: Vec<String> = Vec::new();
            msgs.push(self.error("mv: missing file operand", true));
            msgs.push(String::from_str("Usage: mv SOURCE... DESTINATION"));
            proof {
                let full = mv_command(
                    old(fs)@,
                    old(fs).denied@,
                    self.abs_cwd@,
                    self.home_dir@,
                    views_of(args@),
                    rename_works,
                );
                assert(views_of(msgs@) =~= full.1);
            }
            return msgs;
        }
        let dstarg = self.resolve_path(args[args.len() - 1].as_str());
        let ghost argsv = views_of(args@);
        proof {
            assert(argsv.last() == args@[args@.len() - 1]@);
        }
        let nsrc = args.len() - 1;
        let mut srcs: Vec<String> = Vec::new();
        let mut i: usize = 0;
        while i < nsrc
            invariant
                i <= nsrc,
                nsrc == args@.len() - 1,
                argsv == views_of(args@),
                views_of(srcs@) == resolve_all(
                    argsv.drop_last().subrange(0, i as int),
                    self.abs_cwd@,
                    self.home_dir@,
                ),
            decreases nsrc - i,
        {
            let ghost s0 = srcs@;
            let r = self.resolve_path(args[i].as_str());
            let ghost rv = r@;
            srcs.push(r);
            proof {
                assert(argsv.drop_last()[i as int] == args@[i as int]@);
                assert(views_of(srcs@) =~= views_of(s0).push(rv));
                assert(views_of(srcs@) =~= resolve_all(
                    argsv.drop_last().subrange(0, i + 1),
                    self.abs_cwd@,
                    self.home_dir@,
                ));
            }
            i = i + 1;
        }
        proof {
            assert(argsv.drop_last().subrange(0, nsrc as int) =~= argsv.drop_last());
        }
        let ghost srcsv = views_of(srcs@);
        let ghost m0 = fs@;
        let ghost dn = fs.denied@;
        if srcs.len() > 1 && !fs.is_dir(dstarg.as_str()) {
            let mut msgs: Vec<String> = Vec::new();
            msgs.push(cat3("mv: target '", dstarg.as_str(), "' is not a directory"));
            proof {
                let full = mv_command(
                    m0,
                    dn,
                    self.abs_cwd@,
                    self.home_dir@,
                    views_of(args@),
                    rename_works,
                );
                assert(views_of(msgs@) =~= full.1);
            }
            return msgs;
        }
        let mut msgs: Vec<String> = Vec::new();
        let mut k: usize = 0;
        while k < srcs.len()
            invariant
                fs.wf(),
                fs.denied@ == dn,
                k <= srcs@.len(),
                srcsv == views_of(srcs@),
                mv_fold(m0, dn, srcsv.subrange(0, k as int), dstarg@, rename_works).0 == fs@,
                mv_fold(m0, dn, srcsv.subrange(0, k as int), dstarg@, rename_works).1 == views_of(
                    msgs@,
                ),
            decreases srcs.len() - k,
        {
            let ghost mk = fs@;
            let ghost msgs0 = views_of(msgs@);
            let src = srcs[k].as_str();
            proof {
                assert(srcsv[k as int] == src@);
                assert(srcsv.subrange(0, k + 1).drop_last() =~= srcsv.subrange(0, k as int));
            }
            if !fs.exists_path(src) {
                msgs.push(cat3("mv: cannot stat '", src, "': No such file or directory"));
                proof {
                    assert(views_of(msgs@) =~= msgs0.push(msg_mv_stat(src@)));
                    assert(msgs0 + seq![msg_mv_stat(src@)] =~= views_of(msgs@));
                }
            } else {
                let dest = self.get_destination_path(fs, src, dstarg.as_str());
                if crate::text::str_eq(src, dest.as_str()) {
                    msgs.push(cat5("mv: '", src, "' and '", dest.as_str(), "' are the same file"));
                    proof {
                        assert(views_of(msgs@) =~= msgs0.push(msg_mv_same(src@, dest@)));
                        assert(msgs0 + seq![msg_mv_same(src@, dest@)] =~= views_of(msgs@));
                    }
                } else if rename_works {
                    self.rename_tree(fs, src, dest.as_str());
                    proof {
                        assert(fs@ =~= move_tree_map(mk, src@, dest@));
                        assert(msgs0 + Seq::<Seq<char>>::empty() =~= msgs0);
                    }
                } else {
                    let is_dir_src = fs.is_dir(src);
                    if is_dir_src {
                        match self.copy_dir_recursive(fs, src, dest.as_str()) {
                            Ok(_) => {
                                let ghost mc = fs@;
                                fs.remove_tree(src);
                                proof {
                                    assert(mc =~= copy_tree_map(mk, src@, dest@));
                                    assert(fs@ =~= minus_covered(
                                        copy_tree_map(mk, src@, dest@),
                                        src@,
                                    ));
                                    assert(msgs0 + Seq::<Seq<char>>::empty() =~= msgs0);
                                }
                            },
                            Err(_) => {
                                msgs.push(
                                    cat3("mv: cannot write '", dest.as_str(), "': Operation not permitted"),
                                );
                                proof {
                                    assert(views_of(msgs@) =~= msgs0.push(msg_mv_write(dest@)));
                                    assert(msgs0 + seq![msg_mv_write(dest@)] =~= views_of(msgs@));
                                }
                            },
                        }
                    } else {
                        match self.copy_file(fs, src, dest.as_str()) {
                            Ok(_) => {
                                fs.remove_path(src);
                                proof {
                                    assert(fs@ =~= mk.insert(dest@, mk[src@]).remove(src@));
                                    assert(msgs0 + Seq::<Seq<char>>::empty() =~= msgs0);
                                }
                            },
                            Err(_) => {
                                msgs.push(
                                    cat3("mv: cannot write '", dest.as_str(), "': Operation not permitted"),
                                );
                                proof {
                                    assert(views_of(msgs@) =~= msgs0.push(msg_mv_write(dest@)));
                                    assert(msgs0 + seq![msg_mv_write(dest@)] =~= views_of(msgs@));
                                }
                            },
                        }
                    }
                }
            }
            k = k + 1;
        }
        proof {
            assert(srcsv.subrange(0, srcs@.len() as int) =~= srcsv);
        }
        msgs
    }
}


/// Law: copying a file and then reading both paths back yields identical
/// byte content and identical permission bits — the destination holds the
/// very node the source holds, and the source is unchanged.
pub proof fn lemma_copy_file_round_trip(
    m: Map<Seq<char>, NodeView>,
    dn: Seq<String>,
    src: Seq<char>,
    dstarg: Seq<char>,
    recursive: bool,
)
    requires
        m.dom().contains(src),
        m[src] is File,
        !denied_in(dn, spec_dest_path(m, src, dstarg)),
    ensures
        ({
            let dest = spec_dest_path(m, src, dstarg);
            let r = cp_copy_one(m, dn, src, dstarg, recursive);
            r.1.len() == 0 && r.0.dom().contains(dest) && r.0.dom().contains(src) && r.0[dest]
                == r.0[src] && r.0[src] == m[src]
        }),
{
}

/// Law: a recursive copy preserves the whole tree shape, every filename and
/// every content: each path that stands under the source reappears under
/// the destination with the very same node.
pub proof fn lemma_recursive_copy_preserves_tree(
    m: Map<Seq<char>, NodeView>,
    s: Seq<char>,
    d: Seq<char>,
    suffix: Seq<char>,
)
    requires
        m.dom().contains(s + suffix),
        suffix.len() == 0 || suffix[0] == '/',
    ensures
        copy_tree_map(m, s, d).dom().contains(d + suffix),
        copy_tree_map(m, s, d)[d + suffix] == m[s + suffix],
{
    let p = s + suffix;
    if suffix.len() == 0 {
        assert(p =~= s);
    } else {
        assert(p.subrange(0, s.len() as int) =~= s);
        assert(p[s.len() as int] == suffix[0]);
        assert(under(p, s));
    }
    lemma_rt_dom_rew(m, s, d, p);
    assert(rew(p, s, d) =~= d + suffix);
}

/// Law: a move whose rename the platform refuses (a cross-device move)
/// still ends with the source removed and the destination holding identical
/// content; and when the fallback copy itself is refused, the filesystem —
/// the source included — stands exactly as it was.
pub proof fn lemma_move_cross_device(
    m: Map<Seq<char>, NodeView>,
    dn: Seq<String>,
    src: Seq<char>,
    dstarg: Seq<char>,
)
    requires
        m.dom().contains(src),
        m[src] is File,
        spec_dest_path(m, src, dstarg) != src,
    ensures
        ({
            let dest = spec_dest_path(m, src, dstarg);
            let r = mv_move_one(m, dn, src, dstarg, false);
            &&& !denied_in(dn, dest) ==> !r.0.dom().contains(src) && r.0.dom().contains(dest)
                && r.0[dest] == m[src] && r.1.len() == 0
            &&& denied_in(dn, dest) ==> r.0 == m && r.1 == seq![msg_mv_write(dest)]
        }),
{
}

/// Law: `cp` with several sources and a destination that is not an existing
/// directory fails as one whole: the single report names the target, and
/// not one write reaches the filesystem.
pub proof fn lemma_cp_target_not_a_directory(
    m: Map<Seq<char>, NodeView>,
    dn: Seq<String>,
    cwd: Seq<char>,
    home: Seq<char>,
    args: Seq<Seq<char>>,
)
    requires
        drop_flags(args).len() >= 3,
        ({
            let dstarg = crate::resolve::spec_resolve(drop_flags(args).last(), cwd, home);
            !(m.dom().contains(dstarg) && m[dstarg] is Dir)
        }),
    ensures
        ({
            let dstarg = crate::resolve::spec_resolve(drop_flags(args).last(), cwd, home);
            let r = cp_command(m, dn, cwd, home, args);
            r.0 == m && r.1 == seq![msg_cp_target(dstarg)]
        }),
{
    let paths = drop_flags(args);
    let srcs = resolve_all(paths.drop_last(), cwd, home);
    assert(srcs.len() == paths.len() - 1);
}

/// Law: moving a path onto itself reports the same-file failure and leaves
/// everything untouched.
pub proof fn lemma_mv_same_file(
    m: Map<Seq<char>, NodeView>,
    dn: Seq<String>,
    src: Seq<char>,
    dstarg: Seq<char>,
    rename_works: bool,
)
    requires
        m.dom().contains(src),
        spec_dest_path(m, src, dstarg) == src,
    ensures
        ({
            let r = mv_move_one(m, dn, src, dstarg, rename_works);
            r.0 == m && r.1 == seq![msg_mv_same(src, src)]
        }),
{
}

} // verus!

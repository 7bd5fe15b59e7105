use vstd::prelude::*;
use vstd::seq_lib::group_to_multiset_ensures;
use crate::fs_model::{lemma_map_of_at, lemma_map_of_contains, FsNode, FsObj, FsSpace, NodeView};
use crate::text::{bytes_eq, chars_of_str};

verus! {

broadcast use group_to_multiset_ensures;

/// One step of bringing the real filesystem in line with the model: create
/// or overwrite a node, or take one away.
pub enum FsAction {
    MakeDir { path: String, mode: u32 },
    WriteFile { path: String, content: Vec<u8>, mode: u32 },
    RemoveFile { path: String },
    RemoveDir { path: String },
}

/// The view of one action.
pub ghost enum FsActionView {
    MakeDir { path: Seq<char>, mode: u32 },
    WriteFile { path: Seq<char>, content: Seq<u8>, mode: u32 },
    RemoveFile { path: Seq<char> },
    RemoveDir { path: Seq<char> },
}

impl View for FsAction {
    type V = FsActionView;

    open spec fn view(&self) -> FsActionView {
        match self {
            FsAction::MakeDir { path, mode } => FsActionView::MakeDir {
                path: path@,
                mode: *mode,
            },
            FsAction::WriteFile { path, content, mode } => FsActionView::WriteFile {
                path: path@,
                content: content@,
                mode: *mode,
            },
            FsAction::RemoveFile { path } => FsActionView::RemoveFile { path: path@ },
            FsAction::RemoveDir { path } => FsActionView::RemoveDir { path: path@ },
        }
    }
}

/// The path an action touches.
pub open spec fn action_path(a: FsActionView) -> Seq<char> {
    match a {
        FsActionView::MakeDir { path, .. } => path,
        FsActionView::WriteFile { path, .. } => path,
        FsActionView::RemoveFile { path } => path,
        FsActionView::RemoveDir { path } => path,
    }
}

/// The action that puts `n` at `q`.
pub open spec fn write_action_of(q: Seq<char>, n: NodeView) -> FsActionView {
    match n {
        NodeView::Dir { mode } => FsActionView::MakeDir { path: q, mode },
        NodeView::File { content, mode } => FsActionView::WriteFile { path: q, content, mode },
    }
}

/// The action that takes away what `before` held at `q`.
pub open spec fn remove_action_of(q: Seq<char>, n: NodeView) -> FsActionView {
    if n is Dir {
        FsActionView::RemoveDir { path: q }
    } else {
        FsActionView::RemoveFile { path: q }
    }
}

/// `q` must be written: the command's outcome holds a node there that the
/// filesystem did not hold, or held differently.
pub open spec fn needs_write(b: Map<Seq<char>, NodeView>, a: Map<Seq<char>, NodeView>, q: Seq<
    char,
>) -> bool {
    a.dom().contains(q) && (!b.dom().contains(q) || b[q] != a[q])
}

/// `q` must be removed: the filesystem held it and the outcome does not.
pub open spec fn needs_removal(b: Map<Seq<char>, NodeView>, a: Map<Seq<char>, NodeView>, q: Seq<
    char,
>) -> bool {
    b.dom().contains(q) && !a.dom().contains(q)
}

/// One of the first `bound` objects carries the path `q`.
pub open spec fn from_prefix(so: Seq<FsObj>, bound: int, q: Seq<char>) -> bool {
    exists|jj: int| 0 <= jj < bound && #[trigger] so[jj].path@ == q
}

/// The actions hold one whose path is `q`.
pub open spec fn act_at(ps: Seq<FsAction>, q: Seq<char>) -> bool {
    exists|i: int| 0 <= i < ps.len() && action_path(#[trigger] ps[i]@) == q
}

/// This write action carries exactly the node the outcome holds, at a path
/// that needs writing.
pub open spec fn write_ok(
    b: Map<Seq<char>, NodeView>,
    a: Map<Seq<char>, NodeView>,
    act: FsActionView,
) -> bool {
    needs_write(b, a, action_path(act)) && act == write_action_of(
        action_path(act),
        a[action_path(act)],
    )
}

/// This removal names a path that needs removing, as the kind the
/// filesystem held there.
pub open spec fn removal_ok(
    b: Map<Seq<char>, NodeView>,
    a: Map<Seq<char>, NodeView>,
    act: FsActionView,
) -> bool {
    needs_removal(b, a, action_path(act)) && act == remove_action_of(
        action_path(act),
        b[action_path(act)],
    )
}

/// The ordered changes one command asks of the real filesystem: the writes,
/// parents before children, and the removals, children before parents.  The
/// removals stand apart because they may only run once every write has
/// landed: a move's source is protected by the write of its destination.
pub struct FsPlan {
    pub writes: Vec<FsAction>,
    pub removals: Vec<FsAction>,
}

/// The action that realizes this node.
fn write_action_for(path: &str, node: &FsNode) -> (r: FsAction)
    ensures
        r@ == write_action_of(path@, node@),
{
    match node {
        FsNode::Dir { mode } => FsAction::MakeDir { path: String::from_str(path), mode: *mode },
        FsNode::File { content, mode } => FsAction::WriteFile {
            path: String::from_str(path),
            content: crate::text::copy_bytes(content),
            mode: *mode,
        },
    }
}

/// The count of characters in an action's path.
fn action_path_len(a: &FsAction) -> (r: usize)
    ensures
        r == action_path(a@).len(),
{
    let p: &String = match a {
        FsAction::MakeDir { path, .. } => path,
        FsAction::WriteFile { path, .. } => path,
        FsAction::RemoveFile { path } => path,
        FsAction::RemoveDir { path } => path,
    };
    let v = chars_of_str(p.as_str());
    v.len()
}

/// Path-length order on actions: ascending puts parents before children,
/// descending children before parents.
pub open spec fn len_ordered(ps: Seq<FsAction>, ascending: bool) -> bool {
    forall|i: int, j: int|
        0 <= i < j < ps.len() ==> if ascending {
            action_path(#[trigger] ps[i]@).len() <= action_path(#[trigger] ps[j]@).len()
        } else {
            action_path(ps[i]@).len() >= action_path(ps[j]@).len()
        }
}

/// Sorts actions by the length of their paths; the actions themselves are
/// exactly the given ones, reordered.
fn sort_by_len(actions: Vec<FsAction>, ascending: bool) -> (out: Vec<FsAction>)
    ensures
        len_ordered(out@, ascending),
        out@.to_multiset() == actions@.to_multiset(),
{
    let mut rest = actions;
    let ghost orig = rest@;
    let mut out: Vec<FsAction> = Vec::new();
    while rest.len() > 0
        invariant
            len_ordered(out@, ascending),
            forall|i: int, j: int|
                0 <= i < out@.len() && 0 <= j < rest@.len() ==> if ascending {
                    action_path(#[trigger] out@[i]@).len() <= action_path(
                        #[trigger] rest@[j]@,
                    ).len()
                } else {
                    action_path(out@[i]@).len() >= action_path(rest@[j]@).len()
                },
            out@.to_multiset().add(rest@.to_multiset()) == orig.to_multiset(),
        decreases rest@.len(),
    {
        let mut m: usize = 0;
        let mut k: usize = 1;
        let mut best = action_path_len(&rest[0]);
        while k < rest.len()
            invariant
                1 <= k <= rest@.len(),
                m < rest@.len(),
                m < k,
                best == action_path(rest@[m as int]@).len(),
                forall|j: int|
                    0 <= j < k ==> if ascending {
                        action_path(rest@[m as int]@).len() <= action_path(
                            #[trigger] rest@[j]@,
                        ).len()
                    } else {
                        action_path(rest@[m as int]@).len() >= action_path(rest@[j]@).len()
                    },
            decreases rest@.len() - k,
        {
            let cand = action_path_len(&rest[k]);
            let better = if ascending {
                cand < best
            } else {
                cand > best
            };
            if better {
                m = k;
                best = cand;
            }
            k = k + 1;
        }
        let ghost restv = rest@;
        let ghost outv = out@;
        let act = rest.remove(m);
        let ghost av = act;
        out.push(act);
        proof {
            assert(rest@ =~= restv.remove(m as int));
            assert(out@ =~= outv.push(av));
            assert(restv.remove(m as int).to_multiset() =~= restv.to_multiset().remove(av));
            assert(outv.push(av).to_multiset() =~= outv.to_multiset().insert(av));
            assert(outv.to_multiset().insert(av).add(restv.to_multiset().remove(av))
                =~= outv.to_multiset().add(restv.to_multiset()));
            assert forall|i: int, j: int|
                0 <= i < out@.len() && 0 <= j < rest@.len() implies (if ascending {
                action_path(#[trigger] out@[i]@).len() <= action_path(#[trigger] rest@[j]@).len()
            } else {
                action_path(out@[i]@).len() >= action_path(rest@[j]@).len()
            }) by {
                let old_j = if j < m {
                    j
                } else {
                    j + 1
                };
                assert(rest@[j] == restv[old_j]);
                if i < out@.len() - 1 {
                    assert(out@[i] == outv[i]);
                }
            }
            assert forall|i: int, j: int|
                0 <= i < j < out@.len() implies (if ascending {
                action_path(#[trigger] out@[i]@).len() <= action_path(#[trigger] out@[j]@).len()
            } else {
                action_path(out@[i]@).len() >= action_path(out@[j]@).len()
            }) by {
                if j < out@.len() - 1 {
                    assert(out@[i] == outv[i] && out@[j] == outv[j]);
                } else {
                    assert(out@[j] == av && out@[i] == outv[i]);
                    assert(restv[m as int] == av);
                }
            }
        }
    }
    out
}

/// True when the two nodes are the same, content, kind and mode.
fn node_eq(x: &FsNode, y: &FsNode) -> (r: bool)
    ensures
        r == (x@ == y@),
{
    match (x, y) {
        (FsNode::Dir { mode: mx }, FsNode::Dir { mode: my }) => *mx == *my,
        (
            FsNode::File { content: cx, mode: mx },
            FsNode::File { content: cy, mode: my },
        ) => *mx == *my && bytes_eq(cx, cy),
        _ => false,
    }
}

/// Computes what one command asks of the real filesystem: every node the
/// outcome holds anew or changed becomes a write, parents first; every node
/// that vanished becomes a removal, children first.  Nothing else is
/// touched, and nothing appears twice.
pub fn plan_changes(before: &FsSpace, after: &FsSpace) -> (plan: FsPlan)
    requires
        before.wf(),
        after.wf(),
    ensures
        forall|i: int|
            0 <= i < plan.writes@.len() ==> write_ok(before@, after@, #[trigger] plan.writes@[i]@),
        forall|q: Seq<char>| needs_write(before@, after@, q) ==> act_at(plan.writes@, q),
        len_ordered(plan.writes@, true),
        forall|i: int, j: int|
            0 <= i < j < plan.writes@.len() ==> action_path(plan.writes@[i]@) != action_path(
                plan.writes@[j]@,
            ),
        forall|i: int|
            0 <= i < plan.removals@.len() ==> removal_ok(
                before@,
                after@,
                #[trigger] plan.removals@[i]@,
            ),
        forall|q: Seq<char>| needs_removal(before@, after@, q) ==> act_at(plan.removals@, q),
        len_ordered(plan.removals@, false),
        forall|i: int, j: int|
            0 <= i < j < plan.removals@.len() ==> action_path(plan.removals@[i]@) != action_path(
                plan.removals@[j]@,
            ),
{
    let ghost b = before@;
    let ghost a = after@;
    let mut writes: Vec<FsAction> = Vec::new();
    let ghost ao = after.objs@;
    let mut j: usize = 0;
    while j < after.objs.len()
        invariant
            before.wf(),
            after.wf(),
            b == before@,
            a == after@,
            ao == after.objs@,
            j <= ao.len(),
            forall|i: int| 0 <= i < writes@.len() ==> write_ok(b, a, #[trigger] writes@[i]@),
            forall|jj: int|
                0 <= jj < j && needs_write(b, a, #[trigger] ao[jj].path@) ==> act_at(
                    writes@,
                    ao[jj].path@,
                ),
            forall|i: int|
                0 <= i < writes@.len() ==> from_prefix(
                    ao,
                    j as int,
                    action_path(#[trigger] writes@[i]@),
                ),
            forall|i1: int, i2: int|
                0 <= i1 < i2 < writes@.len() ==> action_path(writes@[i1]@) != action_path(
                    writes@[i2]@,
                ),
        decreases after.objs.len() - j,
    {
        proof {
            lemma_map_of_at(ao, j as int);
        }
        let path = &after.objs[j].path;
        let changed = match before.find(path.as_str()) {
            Some(k) => !node_eq(&after.objs[j].node, &before.objs[k].node),
            None => true,
        };
        let ghost w0 = writes@;
        if changed {
            let act = write_action_for(path.as_str(), &after.objs[j].node);
            writes.push(act);
            proof {
                assert(action_path(writes@[writes@.len() - 1]@) == ao[j as int].path@);
                assert forall|i1: int, i2: int|
                    0 <= i1 < i2 < writes@.len() implies action_path(writes@[i1]@) != action_path(
                    writes@[i2]@,
                ) by {
                    if i2 == writes@.len() - 1 && action_path(writes@[i1]@) == action_path(
                        writes@[i2]@,
                    ) {
                        assert(from_prefix(ao, j as int, action_path(w0[i1]@)));
                        let jj = choose|jj: int|
                            0 <= jj < j && #[trigger] ao[jj].path@ == action_path(w0[i1]@);
                        assert(ao[jj].path@ == ao[j as int].path@);
                    }
                }
                assert forall|i: int|
                    0 <= i < writes@.len() implies from_prefix(
                    ao,
                    j + 1,
                    action_path(#[trigger] writes@[i]@),
                ) by {
                    if i < writes@.len() - 1 {
                        assert(from_prefix(ao, j as int, action_path(w0[i]@)));
                        let jj = choose|jj: int|
                            0 <= jj < j && #[trigger] ao[jj].path@ == action_path(w0[i]@);
                        assert(ao[jj].path@ == action_path(writes@[i]@));
                    } else {
                        assert(ao[j as int].path@ == action_path(writes@[i]@));
                    }
                }
            }
        }
        proof {
            assert forall|jj: int|
                0 <= jj < j + 1 && needs_write(b, a, #[trigger] ao[jj].path@) implies act_at(
                writes@,
                ao[jj].path@,
            ) by {
                if jj == j {
                    assert(a[ao[jj].path@] == ao[jj].node@);
                    assert(changed);
                    assert(action_path(writes@[writes@.len() - 1]@) == ao[jj].path@);
                } else {
                    assert(act_at(w0, ao[jj].path@));
                    let i = choose|i: int|
                        0 <= i < w0.len() && action_path(#[trigger] w0[i]@) == ao[jj].path@;
                    assert(action_path(writes@[i]@) == ao[jj].path@);
                }
            }
        }
        j = j + 1;
    }
    proof {
        assert forall|q: Seq<char>| needs_write(b, a, q) implies act_at(writes@, q) by {
            lemma_map_of_contains(ao, q);
            let jj = choose|jj: int| 0 <= jj < ao.len() && ao[jj].path@ == q;
            assert(needs_write(b, a, ao[jj].path@));
        }
    }
    let mut removals: Vec<FsAction> = Vec::new();
    let ghost bo = before.objs@;
    let mut j: usize = 0;
    while j < before.objs.len()
        invariant
            before.wf(),
            after.wf(),
            b == before@,
            a == after@,
            bo == before.objs@,
            j <= bo.len(),
            forall|i: int| 0 <= i < removals@.len() ==> removal_ok(b, a, #[trigger] removals@[i]@),
            forall|jj: int|
                0 <= jj < j && needs_removal(b, a, #[trigger] bo[jj].path@) ==> act_at(
                    removals@,
                    bo[jj].path@,
                ),
            forall|i: int|
                0 <= i < removals@.len() ==> from_prefix(
                    bo,
                    j as int,
                    action_path(#[trigger] removals@[i]@),
                ),
            forall|i1: int, i2: int|
                0 <= i1 < i2 < removals@.len() ==> action_path(removals@[i1]@) != action_path(
                    removals@[i2]@,
                ),
        decreases before.objs.len() - j,
    {
        proof {
            lemma_map_of_at(bo, j as int);
        }
        let path = &before.objs[j].path;
        let gone = !after.exists_path(path.as_str());
        let ghost r0 = removals@;
        if gone {
            let act = match &before.objs[j].node {
                FsNode::Dir { .. } => FsAction::RemoveDir { path: path.clone() },
                FsNode::File { .. } => FsAction::RemoveFile { path: path.clone() },
            };
            removals.push(act);
            proof {
                assert(action_path(removals@[removals@.len() - 1]@) == bo[j as int].path@);
                assert forall|i1: int, i2: int|
                    0 <= i1 < i2 < removals@.len() implies action_path(removals@[i1]@)
                    != action_path(removals@[i2]@) by {
                    if i2 == removals@.len() - 1 && action_path(removals@[i1]@) == action_path(
                        removals@[i2]@,
                    ) {
                        assert(from_prefix(bo, j as int, action_path(r0[i1]@)));
                        let jj = choose|jj: int|
                            0 <= jj < j && #[trigger] bo[jj].path@ == action_path(r0[i1]@);
                        assert(bo[jj].path@ == bo[j as int].path@);
                    }
                }
                assert forall|i: int|
                    0 <= i < removals@.len() implies from_prefix(
                    bo,
                    j + 1,
                    action_path(#[trigger] removals@[i]@),
                ) by {
                    if i < removals@.len() - 1 {
                        assert(from_prefix(bo, j as int, action_path(r0[i]@)));
                        let jj = choose|jj: int|
                            0 <= jj < j && #[trigger] bo[jj].path@ == action_path(r0[i]@);
                        assert(bo[jj].path@ == action_path(removals@[i]@));
                    } else {
                        assert(bo[j as int].path@ == action_path(removals@[i]@));
                    }
                }
            }
        }
        proof {
            assert forall|jj: int|
                0 <= jj < j + 1 && needs_removal(b, a, #[trigger] bo[jj].path@) implies act_at(
                removals@,
                bo[jj].path@,
            ) by {
                if jj == j {
                    assert(gone);
                    assert(action_path(removals@[removals@.len() - 1]@) == bo[jj].path@);
                } else {
                    assert(act_at(r0, bo[jj].path@));
                    let i = choose|i: int|
                        0 <= i < r0.len() && action_path(#[trigger] r0[i]@) == bo[jj].path@;
                    assert(action_path(removals@[i]@) == bo[jj].path@);
                }
            }
        }
        j = j + 1;
    }
    proof {
        assert forall|q: Seq<char>| needs_removal(b, a, q) implies act_at(removals@, q) by {
            lemma_map_of_contains(bo, q);
            let jj = choose|jj: int| 0 <= jj < bo.len() && bo[jj].path@ == q;
            assert(needs_removal(b, a, bo[jj].path@));
        }
    }
    let ghost w1 = writes@;
    let ghost r1 = removals@;
    let writes = sort_by_len(writes, true);
    let removals = sort_by_len(removals, false);
    proof {
        lemma_sort_transfer(w1, writes@);
        lemma_sort_transfer(r1, removals@);
        assert forall|i: int|
            0 <= i < writes@.len() implies write_ok(b, a, #[trigger] writes@[i]@) by {
            assert(w1.contains(writes@[i]));
            let k = choose|k: int| 0 <= k < w1.len() && w1[k] == writes@[i];
            assert(write_ok(b, a, w1[k]@));
        }
        assert forall|q: Seq<char>| needs_write(b, a, q) implies act_at(writes@, q) by {
            assert(act_at(w1, q));
            let k = choose|k: int| 0 <= k < w1.len() && action_path(#[trigger] w1[k]@) == q;
            assert(writes@.contains(w1[k]));
            let i = choose|i: int| 0 <= i < writes@.len() && writes@[i] == w1[k];
            assert(action_path(writes@[i]@) == q);
        }
        assert forall|i1: int, i2: int|
            0 <= i1 < i2 < writes@.len() implies action_path(writes@[i1]@) != action_path(
            writes@[i2]@,
        ) by {
            lemma_distinct_after_sort(w1, writes@, i1, i2);
        }
        assert forall|i: int|
            0 <= i < removals@.len() implies removal_ok(b, a, #[trigger] removals@[i]@) by {
            assert(r1.contains(removals@[i]));
            let k = choose|k: int| 0 <= k < r1.len() && r1[k] == removals@[i];
            assert(removal_ok(b, a, r1[k]@));
        }
        assert forall|q: Seq<char>| needs_removal(b, a, q) implies act_at(removals@, q) by {
            assert(act_at(r1, q));
            let k = choose|k: int| 0 <= k < r1.len() && action_path(#[trigger] r1[k]@) == q;
            assert(removals@.contains(r1[k]));
            let i = choose|i: int| 0 <= i < removals@.len() && removals@[i] == r1[k];
            assert(action_path(removals@[i]@) == q);
        }
        assert forall|i1: int, i2: int|
            0 <= i1 < i2 < removals@.len() implies action_path(removals@[i1]@) != action_path(
            removals@[i2]@,
        ) by {
            lemma_distinct_after_sort(r1, removals@, i1, i2);
        }
    }
    FsPlan { writes, removals }
}

/// A permutation keeps every element available on both sides: whatever one
/// list holds at some index, the other holds somewhere.
proof fn lemma_sort_transfer(src: Seq<FsAction>, dst: Seq<FsAction>)
    requires
        src.to_multiset() == dst.to_multiset(),
    ensures
        forall|i: int| 0 <= i < dst.len() ==> src.contains(#[trigger] dst[i]),
        forall|k: int| 0 <= k < src.len() ==> dst.contains(#[trigger] src[k]),
{
    assert forall|i: int| 0 <= i < dst.len() implies src.contains(#[trigger] dst[i]) by {
        assert(dst.contains(dst[i]));
        assert(dst.to_multiset().count(dst[i]) > 0);
        assert(src.to_multiset().count(dst[i]) > 0);
    }
    assert forall|k: int| 0 <= k < src.len() implies dst.contains(#[trigger] src[k]) by {
        assert(src.contains(src[k]));
        assert(src.to_multiset().count(src[k]) > 0);
        assert(dst.to_multiset().count(src[k]) > 0);
    }
}

/// Distinct action paths survive reordering.
proof fn lemma_distinct_after_sort(src: Seq<FsAction>, dst: Seq<FsAction>, i1: int, i2: int)
    requires
        src.to_multiset() == dst.to_multiset(),
        forall|k1: int, k2: int|
            0 <= k1 < k2 < src.len() ==> action_path(src[k1]@) != action_path(src[k2]@),
        0 <= i1 < i2 < dst.len(),
    ensures
        action_path(dst[i1]@) != action_path(dst[i2]@),
{
    if action_path(dst[i1]@) == action_path(dst[i2]@) {
        lemma_sort_transfer(src, dst);
        assert(src.contains(dst[i1]));
        assert(src.contains(dst[i2]));
        let k1 = choose|k: int| 0 <= k < src.len() && src[k] == dst[i1];
        let k2 = choose|k: int| 0 <= k < src.len() && src[k] == dst[i2];
        assert(src[k1] == dst[i1] && src[k2] == dst[i2]);
        if k1 != k2 {
            assert(action_path(src[k1]@) != action_path(src[k2]@));
        } else {
            assert(dst[i1] == dst[i2]);
            assert(src.no_duplicates()) by {
                assert forall|a1: int, a2: int|
                    0 <= a1 < src.len() && 0 <= a2 < src.len() && a1 != a2 implies src[a1]
                    != src[a2] by {
                    if a1 < a2 {
                        assert(action_path(src[a1]@) != action_path(src[a2]@));
                    } else {
                        assert(action_path(src[a2]@) != action_path(src[a1]@));
                    }
                }
            }
            src.lemma_multiset_has_no_duplicates();
            assert(dst.to_multiset().count(dst[i1]) == 1);
            assert(dst.subrange(0, i2) + dst.subrange(i2, dst.len() as int) =~= dst);
            vstd::seq_lib::lemma_multiset_commutative(
                dst.subrange(0, i2),
                dst.subrange(i2, dst.len() as int),
            );
            assert(dst.subrange(0, i2).contains(dst[i1]));
            assert(dst.subrange(i2, dst.len() as int).contains(dst[i2]));
            assert(dst.subrange(0, i2).to_multiset().count(dst[i1]) > 0);
            assert(dst.subrange(i2, dst.len() as int).to_multiset().count(dst[i1]) > 0);
        }
    }
}

/// The decision once the writes have run: the removals go ahead only when
/// every write landed.  A failed write means what it was protecting — the
/// source of a move above all — must stay, so nothing is removed.
pub fn confirm_removals(removals: Vec<FsAction>, all_writes_ok: bool) -> (r: Vec<FsAction>)
    ensures
        all_writes_ok ==> r@ == removals@,
        !all_writes_ok ==> r@.len() == 0,
{
    if all_writes_ok {
        removals
    } else {
        Vec::new()
    }
}

} // verus!

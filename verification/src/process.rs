//! The process forest: a mapping from process identifier to root node,
//! filled one record at a time, and an ancestry resolver that walks
//! parent links from a top-level key back to its root.

use vstd::prelude::*;
use std::collections::HashMap;

verus! {

broadcast use vstd::std_specs::hash::group_hash_axioms;

/// One snapshot observation of a process: its identifier and the
/// identifier of its parent, either of which the snapshot may lack.
/// Descriptive attributes of the process play no part in the tree
/// structure and are not kept here.
#[derive(Clone, Copy, PartialEq, Eq, Structural, Debug)]
pub struct ProcessRecord {
    pub pid: Option<u32>,
    pub parent_pid: Option<u32>,
}

/// Why an insertion was refused.
#[derive(Clone, Copy, PartialEq, Eq, Structural, Debug)]
pub enum InsertError {
    /// The record carries no process identifier, so the node it would
    /// make could never be addressed.
    InvalidRecord,
}

/// A node of the forest: one record together with the nodes that were
/// attached under it, in observation order.
pub struct ProcessNode {
    pub record: ProcessRecord,
    pub children: Vec<ProcessNode>,
}

/// The forest: a mapping from process identifier to the root node that
/// currently lives under that identifier. Nodes attached as children are
/// not separately addressable here.
pub struct ProcessTree {
    pub nodes: HashMap<u32, ProcessNode>,
    pub roots: Vec<u32>,
}

impl View for ProcessTree {
    type V = Map<u32, ProcessNode>;

    open spec fn view(&self) -> Map<u32, ProcessNode> {
        self.nodes@
    }
}

impl ProcessTree {
    /// The top-level keys, in the order they first became roots.
    pub open spec fn root_order(&self) -> Seq<u32> {
        self.roots@
    }

    /// Well-formedness: the recorded root order lists exactly the
    /// top-level keys, each once.
    pub open spec fn wf(&self) -> bool {
        &&& self.roots@.no_duplicates()
        &&& forall|i: int| 0 <= i < self.roots@.len() ==> self@.contains_key(#[trigger] self.roots@[i])
        &&& forall|k: u32| self@.contains_key(k) ==> #[trigger] self.roots@.contains(k)
    }

    pub fn new() -> (t: ProcessTree)
        ensures
            t@ == Map::<u32, ProcessNode>::empty(),
            t.root_order() == Seq::<u32>::empty(),
            t.wf(),
    {
        ProcessTree { nodes: HashMap::new(), roots: Vec::new() }
    }
}

impl ProcessTree {
    /// Ingest one record. A record without a process identifier is
    /// refused and the forest is left unchanged. A record whose parent
    /// identifier is currently a top-level key becomes the last child of
    /// that parent's node and no new top-level key appears. Any other
    /// record becomes a top-level root under its own identifier,
    /// overwriting the top-level entry of that identifier if one was
    /// there. A child that arrived before its parent therefore stays a
    /// separate root: records are linked in one pass, never reparented.
    pub fn add_process(&mut self, record: ProcessRecord) -> (r: Result<(), InsertError>)
        requires
            old(self).wf(),
        ensures
            final(self).wf(),
            record.pid is None ==> r == Err::<(), InsertError>(InsertError::InvalidRecord)
                && final(self)@ == old(self)@ && final(self).root_order() == old(
                self,
            ).root_order(),
            record.pid is Some ==> r == Ok::<(), InsertError>(()),
            (record.pid is Some && record.parent_pid is Some && old(self)@.contains_key(
                record.parent_pid->0,
            )) ==> {
                let p = record.parent_pid->0;
                let kids = old(self)@[p].children@;
                &&& final(self)@.dom() == old(self)@.dom()
                &&& final(self).root_order() == old(self).root_order()
                &&& (forall|k: u32|
                    old(self)@.contains_key(k) && k != p ==> final(self)@[k] == old(self)@[k])
                &&& final(self)@[p].record == old(self)@[p].record
                &&& final(self)@[p].children@.len() == kids.len() + 1
                &&& final(self)@[p].children@.subrange(0, kids.len() as int) == kids
                &&& final(self)@[p].children@.last().record == record
                &&& final(self)@[p].children@.last().children@ == Seq::<ProcessNode>::empty()
            },
            (record.pid is Some && (record.parent_pid is None || !old(self)@.contains_key(
                record.parent_pid->0,
            ))) ==> {
                let pid = record.pid->0;
                &&& final(self)@.dom() == old(self)@.dom().insert(pid)
                &&& final(self)@[pid].record == record
                &&& final(self)@[pid].children@ == Seq::<ProcessNode>::empty()
                &&& (forall|k: u32|
                    old(self)@.contains_key(k) && k != pid ==> final(self)@[k] == old(self)@[k])
                &&& final(self).root_order() == if old(self)@.contains_key(pid) {
                    old(self).root_order()
                } else {
                    old(self).root_order().push(pid)
                }
            },
    {
        let pid = match record.pid {
            None => {
                return Err(InsertError::InvalidRecord);
            },
            Some(pid) => pid,
        };
        let node = ProcessNode { record, children: Vec::new() };
        if let Some(p) = record.parent_pid {
            if self.nodes.contains_key(&p) {
                let mut parent_node = self.nodes.remove(&p).unwrap();
                parent_node.children.push(node);
                let ghost updated = parent_node;
                self.nodes.insert(p, parent_node);
                proof {
                    let kids = old(self)@[p].children@;
                    assert(self@ == old(self)@.remove(p).insert(p, updated));
                    assert(self@.dom() =~= old(self)@.dom());
                    assert(updated.children@.subrange(0, kids.len() as int) =~= kids);
                    assert(final(self).wf()) by {
                        assert(forall|i: int|
                            0 <= i < self.roots@.len() ==> self@.contains_key(
                                #[trigger] self.roots@[i],
                            ));
                    }
                }
                return Ok(());
            }
        }
        let ghost roots0 = self.roots@;
        if !self.nodes.contains_key(&pid) {
            self.roots.push(pid);
            proof {
                assert(!roots0.contains(pid));
                assert(self.roots@.no_duplicates()) by {
                    assert(forall|i: int|
                        0 <= i < roots0.len() ==> #[trigger] self.roots@[i] == roots0[i]);
                    assert(self.roots@.last() == pid);
                }
            }
        }
        self.nodes.insert(pid, node);
        proof {
            assert(self@ == old(self)@.insert(pid, node));
            assert(self@.dom() =~= old(self)@.dom().insert(pid));
            assert(final(self).wf()) by {
                assert(forall|i: int|
                    0 <= i < roots0.len() ==> #[trigger] self.roots@[i] == roots0[i]);
                assert(forall|k: u32|
                    self@.contains_key(k) && k != pid ==> #[trigger] self.roots@.contains(k)) by {
                    assert(forall|k: u32|
                        roots0.contains(k) ==> #[trigger] self.roots@.contains(k)) by {
                        assert(forall|k: u32| #[trigger]
                            roots0.contains(k) ==> self.roots@[choose|i: int|
                                0 <= i < roots0.len() && roots0[i] == k] == k);
                    }
                }
                assert(self@.contains_key(pid) && self.roots@.contains(pid)) by {
                    if old(self)@.contains_key(pid) {
                        assert(roots0.contains(pid));
                        assert(self.roots@ == roots0);
                    } else {
                        assert(self.roots@.len() == roots0.len() + 1);
                        assert(self.roots@[self.roots@.len() - 1] == pid);
                    }
                }
            }
        }
        Ok(())
    }

    /// The full ancestor chain of `pid`: `None` when `pid` is no
    /// top-level key; otherwise the walked parent identifiers in
    /// root-first order with `pid` appended last. A parent identifier
    /// that is no top-level key still appears in the path, as the place
    /// where the walk stopped. The walk from `pid` must halt
    /// (`resolvable`), which only parent links that cycle among
    /// top-level keys — a record naming itself as its own parent —
    /// can defeat.
    pub fn path_to_root(&self, pid: u32) -> (r: Option<Vec<u32>>)
        requires
            resolvable(self@, pid),
        ensures
            r is Some <==> self@.contains_key(pid),
            self@.contains_key(pid) ==> r.deep_view() == Some(path_model(self@, pid)),
            path_answer(self@, pid, r.deep_view()),
    {
        let ghost m = self@;
        match self.nodes.get(&pid) {
            None => None,
            Some(node0) => {
                let ghost full = trail(m, node0.record.parent_pid);
                let mut path: Vec<u32> = Vec::new();
                let mut current: &ProcessNode = node0;
                proof {
                    assert(full.take(0) =~= path@);
                    assert(full.skip(0) =~= full);
                }
                loop
                    invariant_except_break
                        path@.len() <= full.len(),
                        path@ == full.take(path@.len() as int),
                        walk_halts(m, current.record.parent_pid),
                        trail(m, current.record.parent_pid) == full.skip(path@.len() as int),
                    invariant
                        self@ == m,
                    ensures
                        path@ == full,
                    decreases full.len() - path@.len(),
                {
                    match current.record.parent_pid {
                        None => {
                            proof {
                                lemma_trail_none(m);
                                assert(full.skip(path@.len() as int).len() == 0);
                                assert(path@ =~= full);
                            }
                            break;
                        },
                        Some(ppid) => {
                            let ghost len0 = path@.len() as int;
                            path.push(ppid);
                            match self.nodes.get(&ppid) {
                                Some(pn) => {
                                    proof {
                                        assert(m.contains_key(ppid) && m[ppid] == *pn);
                                        lemma_trail_step(m, ppid);
                                        let rest = trail(m, pn.record.parent_pid);
                                        assert(full.skip(len0) == seq![ppid] + rest);
                                        assert(full.skip(len0).len() == full.len() - len0);
                                        assert(full.skip(len0).len() >= 1);
                                        assert(full.skip(len0)[0] == ppid);
                                        assert(full[len0] == ppid);
                                        assert(path@ =~= full.take(len0 + 1));
                                        assert forall|i: int|
                                            0 <= i < rest.len() implies full.skip(len0 + 1)[i]
                                            == rest[i] by {
                                            assert(full.skip(len0)[i + 1] == (seq![ppid]
                                                + rest)[i + 1]);
                                            assert(full.skip(len0)[i + 1] == full[len0 + 1 + i]);
                                            assert(full.skip(len0 + 1)[i] == full[len0 + 1 + i]);
                                        }
                                        assert(rest =~= full.skip(len0 + 1));
                                    }
                                    current = pn;
                                },
                                None => {
                                    proof {
                                        lemma_trail_dangling(m, ppid);
                                        assert(full.skip(len0) == seq![ppid]);
                                        assert(full.skip(len0).len() == full.len() - len0);
                                        assert(full.len() == len0 + 1);
                                        assert(full.skip(len0)[0] == ppid);
                                        assert(full[len0] == ppid);
                                        assert(path@ =~= full);
                                    }
                                    break;
                                },
                            }
                        },
                    }
                }
                let mut out: Vec<u32> = Vec::new();
                let mut j: usize = 0;
                while j < path.len()
                    invariant
                        path@ == full,
                        j <= full.len(),
                        out@ =~= full.reverse().take(j as int),
                    decreases full.len() - j,
                {
                    let id = path[path.len() - 1 - j];
                    out.push(id);
                    proof {
                        assert(full.reverse()[j as int] == full[full.len() - 1 - j as int]);
                        assert(out@ =~= full.reverse().take(j as int + 1));
                    }
                    j += 1;
                }
                proof {
                    assert(out@ =~= full.reverse());
                }
                out.push(pid);
                proof {
                    assert(out@ =~= path_model(m, pid));
                }
                Some(out)
            },
        }
    }

    /// The structured dump of the forest: one line per node, depth-first
    /// from each top-level root, the roots in the order they first
    /// appeared. A diagnostic caller prints each line indented by its
    /// depth.
    pub fn dump(&self) -> (r: Vec<TreeLine>)
        requires
            self.wf(),
        ensures
            lines_view(r@) == forest_lines(*self),
    {
        let mut r: Vec<TreeLine> = Vec::new();
        proof {
            assert(lines_view(r@) =~= roots_lines(self@, self.roots@, 0));
        }
        let mut j: usize = 0;
        while j < self.roots.len()
            invariant
                self.wf(),
                j <= self.roots@.len(),
                lines_view(r@) == roots_lines(self@, self.roots@, j as int),
            decreases self.roots@.len() - j,
        {
            let key = self.roots[j];
            let node = self.nodes.get(&key).unwrap();
            let mut sub = dump_node(node);
            let ghost r0 = r@;
            let ghost subv = sub@;
            r.append(&mut sub);
            proof {
                assert(*node == self@[key]);
                assert(r@ == r0 + subv);
                assert(lines_view(r@) =~= lines_view(r0) + lines_view(subv));
                assert(roots_lines(self@, self.roots@, j as int + 1) == roots_lines(
                    self@,
                    self.roots@,
                    j as int,
                ) + node_lines(self@[self.roots@[j as int]]));
            }
            j += 1;
        }
        proof {
            assert(lines_view(r@) =~= forest_lines(*self));
        }
        r
    }
}

/// One line of the structured dump: the nesting depth of a node and the
/// two identifiers its record carries.
#[derive(Clone, Copy, PartialEq, Eq, Structural, Debug)]
pub struct TreeLine {
    pub depth: usize,
    pub parent: Option<u32>,
    pub pid: Option<u32>,
}

/// The mathematical image of a dump line, with unbounded depth.
pub ghost struct LineModel {
    pub depth: int,
    pub parent: Option<u32>,
    pub pid: Option<u32>,
}

impl View for TreeLine {
    type V = LineModel;

    open spec fn view(&self) -> LineModel {
        LineModel { depth: self.depth as int, parent: self.parent, pid: self.pid }
    }
}

pub open spec fn lines_view(s: Seq<TreeLine>) -> Seq<LineModel> {
    s.map_values(|l: TreeLine| l@)
}

/// The same lines, one level deeper.
pub open spec fn deeper(s: Seq<LineModel>) -> Seq<LineModel> {
    s.map_values(|l: LineModel| LineModel { depth: l.depth + 1, parent: l.parent, pid: l.pid })
}

/// The dump of one node: its own line at depth zero, then the dumps of
/// its children in order, one level deeper.
pub open spec fn node_lines(n: ProcessNode) -> Seq<LineModel>
    decreases n, 0int,
{
    seq![LineModel { depth: 0, parent: n.record.parent_pid, pid: n.record.pid }] + deeper(
        children_lines(n.children, n.children@.len() as int),
    )
}

/// The dumps of the first `j` nodes of `cs`, concatenated.
pub open spec fn children_lines(cs: Vec<ProcessNode>, j: int) -> Seq<LineModel>
    decreases cs, j,
{
    if j <= 0 || j > cs@.len() {
        Seq::<LineModel>::empty()
    } else {
        children_lines(cs, j - 1) + node_lines(cs[j - 1])
    }
}

/// The dumps of the first `j` roots, concatenated.
pub open spec fn roots_lines(m: Map<u32, ProcessNode>, roots: Seq<u32>, j: int) -> Seq<LineModel>
    decreases j,
{
    if j <= 0 || j > roots.len() {
        Seq::<LineModel>::empty()
    } else {
        roots_lines(m, roots, j - 1) + node_lines(m[roots[j - 1]])
    }
}

/// The structured dump of a whole forest: each top-level root in the
/// order it first became one, its subtree depth-first under it.
pub open spec fn forest_lines(t: ProcessTree) -> Seq<LineModel> {
    roots_lines(t@, t.root_order(), t.root_order().len() as int)
}

/// One dump line per node of the subtree rooted at `n`, depth-first,
/// every node one level deeper than the node it hangs under. No line is
/// deeper than its position, which keeps the depth arithmetic in bounds.
fn dump_node(n: &ProcessNode) -> (r: Vec<TreeLine>)
    ensures
        lines_view(r@) == node_lines(*n),
        forall|i: int| 0 <= i < r@.len() ==> #[trigger] r@[i].depth <= i,
    decreases *n,
{
    let ghost head = seq![
        LineModel { depth: 0, parent: n.record.parent_pid, pid: n.record.pid },
    ];
    let mut r: Vec<TreeLine> = Vec::new();
    r.push(TreeLine { depth: 0, parent: n.record.parent_pid, pid: n.record.pid });
    proof {
        assert(lines_view(r@) =~= head + deeper(children_lines(n.children, 0)));
    }
    let mut j: usize = 0;
    while j < n.children.len()
        invariant
            j <= n.children@.len(),
            lines_view(r@) == head + deeper(children_lines(n.children, j as int)),
            forall|i: int| 0 <= i < r@.len() ==> #[trigger] r@[i].depth <= i,
            r@.len() >= 1,
        decreases n.children@.len() - j,
    {
        proof {
            assert(decreases_to!(*n => n.children));
            assert(decreases_to!(n.children => n.children@));
            assert(decreases_to!(n.children@ => n.children@[j as int]));
        }
        let sub = dump_node(&n.children[j]);
        let ghost subm = node_lines(n.children@[j as int]);
        let ghost base = head + deeper(children_lines(n.children, j as int));
        proof {
            assert(deeper(subm.take(0)) =~= Seq::<LineModel>::empty());
            assert(lines_view(r@) =~= base + deeper(subm.take(0)));
        }
        let mut k: usize = 0;
        while k < sub.len()
            invariant
                k <= sub@.len(),
                lines_view(sub@) == subm,
                forall|i: int| 0 <= i < sub@.len() ==> #[trigger] sub@[i].depth <= i,
                lines_view(r@) == base + deeper(subm.take(k as int)),
                forall|i: int| 0 <= i < r@.len() ==> #[trigger] r@[i].depth <= i,
                r@.len() >= 1 + k,
            decreases sub@.len() - k,
        {
            let line = sub[k];
            proof {
                assert(lines_view(sub@)[k as int] == sub@[k as int]@);
                assert(line.depth <= k);
            }
            let ghost r0 = r@;
            r.push(TreeLine { depth: line.depth + 1, parent: line.parent, pid: line.pid });
            proof {
                let bumped = LineModel {
                    depth: subm[k as int].depth + 1,
                    parent: subm[k as int].parent,
                    pid: subm[k as int].pid,
                };
                assert(subm[k as int] == line@);
                assert(r@ == r0.push(
                    TreeLine { depth: (line.depth + 1) as usize, parent: line.parent, pid: line.pid },
                ));
                assert(lines_view(r@) =~= lines_view(r0).push(bumped));
                assert(deeper(subm.take(k as int + 1)) =~= deeper(subm.take(k as int)).push(
                    bumped,
                ));
                assert(base + deeper(subm.take(k as int + 1)) =~= (base + deeper(
                    subm.take(k as int),
                )).push(bumped));
                assert(lines_view(r@) =~= base + deeper(subm.take(k as int + 1)));
            }
            k += 1;
        }
        proof {
            assert(subm.take(subm.len() as int) =~= subm);
            assert(children_lines(n.children, j as int + 1) == children_lines(
                n.children,
                j as int,
            ) + subm);
            assert(deeper(children_lines(n.children, j as int + 1)) =~= deeper(
                children_lines(n.children, j as int),
            ) + deeper(subm));
            assert(head + deeper(children_lines(n.children, j as int + 1)) =~= base + deeper(
                subm,
            ));
        }
        j += 1;
    }
    proof {
        assert(lines_view(r@) =~= node_lines(*n));
    }
    r
}

/// The parent link stored at top-level key `k`.
pub open spec fn parent_link(m: Map<u32, ProcessNode>, k: u32) -> Option<u32> {
    m[k].record.parent_pid
}

/// The identifiers the ancestry walk pushes when it starts from parent
/// link `start`: each parent identifier in turn, ending either at a
/// top-level node with no parent link or at a dangling identifier (one
/// that is pushed but is no top-level key, so the walk stops there).
/// `fuel` bounds how many top-level lookups the walk may make; `None`
/// means the bound was reached first.
pub open spec fn walk(m: Map<u32, ProcessNode>, start: Option<u32>, fuel: nat) -> Option<Seq<u32>>
    decreases fuel,
{
    match start {
        None => Some(Seq::<u32>::empty()),
        Some(p) => {
            if !m.contains_key(p) {
                Some(seq![p])
            } else if fuel == 0 {
                None
            } else {
                match walk(m, parent_link(m, p), (fuel - 1) as nat) {
                    None => None,
                    Some(s) => Some(seq![p] + s),
                }
            }
        },
    }
}

/// The ancestry walk from `start` passes through finitely many top-level
/// keys. False exactly when the parent links cycle among top-level keys,
/// which a record naming itself as its own parent can bring about.
pub open spec fn walk_halts(m: Map<u32, ProcessNode>, start: Option<u32>) -> bool {
    exists|f: nat| (#[trigger] walk(m, start, f)) is Some
}

/// The identifiers the ancestry walk pushes, in push order.
pub open spec fn trail(m: Map<u32, ProcessNode>, start: Option<u32>) -> Seq<u32> {
    walk(m, start, choose|f: nat| (#[trigger] walk(m, start, f)) is Some).unwrap()
}

/// The full ancestry path for top-level key `pid`: the walked parent
/// identifiers in root-first order, with `pid` itself last.
pub open spec fn path_model(m: Map<u32, ProcessNode>, pid: u32) -> Seq<u32> {
    trail(m, parent_link(m, pid)).reverse().push(pid)
}

/// An ancestry query on `pid` terminates: either `pid` is no top-level
/// key, or the walk from its parent link halts.
pub open spec fn resolvable(m: Map<u32, ProcessNode>, pid: u32) -> bool {
    m.contains_key(pid) ==> walk_halts(m, parent_link(m, pid))
}

/// Everything an ancestry query's answer must satisfy: an answer comes
/// exactly for a top-level key, and then it is the full root-first path.
pub open spec fn path_answer(m: Map<u32, ProcessNode>, pid: u32, r: Option<Seq<u32>>) -> bool {
    &&& r is Some <==> m.contains_key(pid)
    &&& m.contains_key(pid) ==> r == Some(path_model(m, pid))
}

/// A top-level key whose node carries no parent link resolves to the
/// one-element path holding just that key.
pub proof fn lemma_path_single(m: Map<u32, ProcessNode>, pid: u32)
    requires
        m.contains_key(pid),
        parent_link(m, pid) is None,
    ensures
        resolvable(m, pid),
        path_model(m, pid) == seq![pid],
{
    lemma_trail_none(m);
    assert(Seq::<u32>::empty().reverse() =~= Seq::<u32>::empty());
    assert(path_model(m, pid) =~= seq![pid]);
}

/// The answer to an ancestry query is a function of the forest and the
/// queried identifier alone: with no insertion in between, repeated
/// queries must answer alike.
pub proof fn lemma_path_to_root_repeatable(
    m: Map<u32, ProcessNode>,
    pid: u32,
    r1: Option<Seq<u32>>,
    r2: Option<Seq<u32>>,
)
    requires
        path_answer(m, pid, r1),
        path_answer(m, pid, r2),
    ensures
        r1 == r2,
{
}

/// Raising the fuel past a bound that already let the walk finish
/// changes nothing.
proof fn lemma_walk_fuel_mono(m: Map<u32, ProcessNode>, start: Option<u32>, f1: nat, f2: nat)
    requires
        walk(m, start, f1) is Some,
        f1 <= f2,
    ensures
        walk(m, start, f2) == walk(m, start, f1),
    decreases f1,
{
    match start {
        None => {},
        Some(p) => {
            if m.contains_key(p) {
                lemma_walk_fuel_mono(m, parent_link(m, p), (f1 - 1) as nat, (f2 - 1) as nat);
            }
        },
    }
}

/// A finished walk at any fuel is the trail.
proof fn lemma_trail_agrees(m: Map<u32, ProcessNode>, start: Option<u32>, f: nat)
    requires
        walk(m, start, f) is Some,
    ensures
        walk_halts(m, start),
        Some(trail(m, start)) == walk(m, start, f),
{
    assert(walk_halts(m, start));
    let fc = choose|fc: nat| (#[trigger] walk(m, start, fc)) is Some;
    if fc <= f {
        lemma_walk_fuel_mono(m, start, fc, f);
    } else {
        lemma_walk_fuel_mono(m, start, f, fc);
    }
}

/// A walk with no parent link to follow halts at once with nothing pushed.
pub proof fn lemma_trail_none(m: Map<u32, ProcessNode>)
    ensures
        walk_halts(m, None::<u32>),
        trail(m, None::<u32>) == Seq::<u32>::empty(),
{
    lemma_trail_agrees(m, None::<u32>, 0);
}

/// A walk whose first parent identifier dangles pushes just that
/// identifier and halts.
pub proof fn lemma_trail_dangling(m: Map<u32, ProcessNode>, p: u32)
    requires
        !m.contains_key(p),
    ensures
        walk_halts(m, Some(p)),
        trail(m, Some(p)) == seq![p],
{
    lemma_trail_agrees(m, Some(p), 0);
}

/// A walk that reaches a top-level key halts exactly when the rest of
/// the walk halts, and its trail is that key followed by the rest.
pub proof fn lemma_trail_step(m: Map<u32, ProcessNode>, p: u32)
    requires
        m.contains_key(p),
    ensures
        walk_halts(m, Some(p)) <==> walk_halts(m, parent_link(m, p)),
        walk_halts(m, Some(p)) ==> trail(m, Some(p)) == seq![p] + trail(m, parent_link(m, p)),
{
    if walk_halts(m, Some(p)) {
        let f = choose|f: nat| (#[trigger] walk(m, Some(p), f)) is Some;
        assert(f > 0);
        assert(walk(m, parent_link(m, p), (f - 1) as nat) is Some);
        lemma_trail_agrees(m, parent_link(m, p), (f - 1) as nat);
        lemma_trail_agrees(m, Some(p), f);
    }
    if walk_halts(m, parent_link(m, p)) {
        let f = choose|f: nat| (#[trigger] walk(m, parent_link(m, p), f)) is Some;
        assert(walk(m, Some(p), f + 1) is Some);
        lemma_trail_agrees(m, Some(p), f + 1);
    }
}

} // verus!

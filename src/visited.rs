use vstd::prelude::*;

use rustc_hash::{FxBuildHasher, FxHashMap};

use crate::board::{blank_at, find_empty, is_move, valid_board, Board};

verus! {

/// rustc_hash's `FxBuildHasher`, declared so that `FxHashMap` can stand in
/// signatures and fields; nothing is assumed of it here.
#[verifier::external_type_specification]
#[verifier::external_body]
pub struct ExFxBuildHasher(FxBuildHasher);

/// Map from a grid's cells to the number of the node stored for it.
pub type GridIndex = FxHashMap<Vec<usize>, usize>;

/// What an index map holds: each stored grid (by its cells) and the node number
/// stored for it.
pub uninterp spec fn index_entries(m: GridIndex) -> Map<Seq<usize>, usize>;

/// Relies on `FxHashMap::default` (std's `HashMap` with rustc_hash's
/// `FxBuildHasher`): the new map is empty.
#[verifier::external_body]
fn index_new() -> (r: GridIndex)
    ensures
        index_entries(r).dom() == Set::<Seq<usize>>::empty(),
{
    FxHashMap::default()
}

/// Relies on `HashMap::get` under rustc_hash's `FxBuildHasher`: the value stored
/// under a key with the same cells, if any. `Vec<usize>` compares and hashes by its
/// elements, and `FxHasher` hashes equal input alike.
#[verifier::external_body]
fn index_get(m: &GridIndex, k: &Vec<usize>) -> (r: Option<usize>)
    ensures
        r == (if index_entries(*m).contains_key(k@) {
            Some(index_entries(*m)[k@])
        } else {
            None::<usize>
        }),
{
    m.get(k).copied()
}

/// Relies on `HashMap::insert` under rustc_hash's `FxBuildHasher`: afterwards the
/// key maps to the value and every other entry is unchanged.
#[verifier::external_body]
fn index_insert(m: &mut GridIndex, k: Vec<usize>, v: usize)
    ensures
        index_entries(*final(m)) == index_entries(*old(m)).insert(k@, v),
{
    m.insert(k, v);
}

/// Copies cells element by element.
fn copy_cells(cells: &Vec<usize>) -> (r: Vec<usize>)
    ensures
        r@ == cells@,
{
    let mut r: Vec<usize> = Vec::with_capacity(cells.len());
    let mut i: usize = 0;
    while i < cells.len()
        invariant
            i <= cells@.len(),
            r@ == cells@.subrange(0, i as int),
        decreases cells.len() - i,
    {
        r.push(cells[i]);
        i = i + 1;
        assert(r@ =~= cells@.subrange(0, i as int));
    }
    assert(r@ =~= cells@);
    r
}

/// One reached grid: its cells, moves from the start `g`, estimate `h`, blank
/// position, and the node it was reached from.
pub struct SearchNode {
    pub cells: Vec<usize>,
    pub g: usize,
    pub h: u64,
    pub blank: usize,
    pub parent: Option<usize>,
}

/// `b` is no worse than `a`: every grid known in `a` is known in `b` at a cost at
/// most as high.
pub open spec fn costs_no_worse(a: Map<Seq<usize>, nat>, b: Map<Seq<usize>, nat>) -> bool {
    forall|k: Seq<usize>| #[trigger] a.contains_key(k) ==> b.contains_key(k) && b[k] <= a[k]
}

/// Over any sequence of best-cost tables, each no worse than the one before, no
/// grid's best cost ever increases: every later table is no worse than every
/// earlier one.
pub proof fn lemma_costs_never_increase(history: Seq<Map<Seq<usize>, nat>>)
    requires
        forall|i: int| 0 <= i < history.len() - 1 ==> costs_no_worse(#[trigger] history[i], history[i + 1]),
    ensures
        forall|i: int, j: int|
            0 <= i <= j < history.len() ==> costs_no_worse(#[trigger] history[i], #[trigger] history[j]),
    decreases history.len(),
{
    if history.len() > 0 {
        let front = history.drop_last();
        assert forall|i: int| 0 <= i < front.len() - 1 implies costs_no_worse(#[trigger] front[i], front[i + 1]) by {
            assert(front[i] == history[i] && front[i + 1] == history[i + 1]);
        }
        lemma_costs_never_increase(front);
        assert forall|i: int, j: int| 0 <= i <= j < history.len() implies costs_no_worse(
            #[trigger] history[i],
            #[trigger] history[j],
        ) by {
            if j < history.len() - 1 {
                assert(front[i] == history[i] && front[j] == history[j]);
            } else if i < j {
                assert(front[i] == history[i] && front[j - 1] == history[j - 1]);
                assert(costs_no_worse(history[i], history[j - 1]));
                assert(costs_no_worse(history[j - 1], history[j]));
            }
        }
    }
}

/// Every grid reached so far, each stored once with the cheapest path found to it.
/// Nodes are never removed; a node refers to its parent by number.
pub struct VisitedTable {
    side: usize,
    nodes: Vec<SearchNode>,
    index: GridIndex,
}

impl VisitedTable {
    pub closed spec fn spec_side(&self) -> nat {
        self.side as nat
    }

    pub closed spec fn spec_nodes(&self) -> Seq<SearchNode> {
        self.nodes@
    }

    /// The node number stored for each grid.
    pub closed spec fn entries(&self) -> Map<Seq<usize>, usize> {
        index_entries(self.index)
    }

    /// The start grid.
    pub open spec fn start(&self) -> Seq<usize> {
        self.spec_nodes()[0].cells@
    }

    /// Best known number of moves to each grid.
    pub open spec fn best_costs(&self) -> Map<Seq<usize>, nat> {
        Map::new(
            |k: Seq<usize>| self.entries().contains_key(k),
            |k: Seq<usize>| self.spec_nodes()[self.entries()[k] as int].g as nat,
        )
    }

    /// Node `i` is a grid of the table's side reached by `g` moves from the start,
    /// along a path whose last move comes from its parent.
    pub open spec fn node_ok(&self, i: int) -> bool {
        let nodes = self.spec_nodes();
        let nd = nodes[i];
        &&& valid_board(self.spec_side(), nd.cells@)
        &&& blank_at(nd.cells@, nd.blank as int)
        &&& nd.g <= i
        &&& (i == 0 <==> nd.parent is None)
        &&& (nd.parent matches Some(p) ==> {
            &&& 0 <= p < i
            &&& is_move(self.spec_side(), nodes[p as int].cells@, nd.cells@)
            &&& nd.g == nodes[p as int].g + 1
        })
    }

    #[verifier::opaque]
    pub open spec fn wf(&self) -> bool {
        &&& self.spec_nodes().len() >= 1
        &&& self.spec_nodes()[0].g == 0
        &&& forall|i: int| 0 <= i < self.spec_nodes().len() ==> #[trigger] self.node_ok(i)
        &&& forall|i: int|
            0 <= i < self.spec_nodes().len() ==> self.entries().contains_key(
                (#[trigger] self.spec_nodes()[i]).cells@,
            ) && self.spec_nodes()[self.entries()[self.spec_nodes()[i].cells@] as int].g
                <= self.spec_nodes()[i].g
        &&& forall|a: int, b: int|
            0 <= a < b < self.spec_nodes().len() && (#[trigger] self.spec_nodes()[a]).cells@
                == (#[trigger] self.spec_nodes()[b]).cells@ ==> self.spec_nodes()[b].g < self.spec_nodes()[a].g
        &&& forall|k: Seq<usize>|
            #[trigger] self.entries().contains_key(k) ==> self.entries()[k] < self.spec_nodes().len()
                && self.spec_nodes()[self.entries()[k] as int].cells@ == k
    }

    /// A table holding only the start grid, reached by no move.
    pub fn new(board: &Board, h: u64) -> (r: VisitedTable)
        requires
            board.wf(),
        ensures
            r.wf(),
            r.spec_side() == board.spec_side(),
            r.spec_nodes().len() == 1,
            r.start() == board@,
            r.spec_nodes()[0].h == h,
            r.entries() == map![board@ => 0usize],
    {
        reveal(VisitedTable::wf);
        let blank = find_empty(board);
        let cells = copy_cells(board.cells());
        let key = copy_cells(board.cells());
        let mut index = index_new();
        index_insert(&mut index, key, 0);
        let mut nodes: Vec<SearchNode> = Vec::new();
        nodes.push(SearchNode { cells, g: 0, h, blank, parent: None });
        let r = VisitedTable { side: board.side(), nodes, index };
        assert(r.entries() =~= map![board@ => 0usize]);
        assert(r.node_ok(0));
        r
    }

    /// Side of the grids.
    pub fn side(&self) -> (r: usize)
        ensures
            r == self.spec_side(),
    {
        self.side
    }

    /// Number of nodes stored.
    pub fn node_count(&self) -> (r: usize)
        ensures
            r == self.spec_nodes().len(),
    {
        self.nodes.len()
    }

    /// Node number `i`.
    pub fn node(&self, i: usize) -> (r: &SearchNode)
        requires
            i < self.spec_nodes().len(),
        ensures
            *r == self.spec_nodes()[i as int],
    {
        &self.nodes[i]
    }

    /// Number of the node stored for a grid, if it was reached.
    pub fn lookup(&self, cells: &Vec<usize>) -> (r: Option<usize>)
        ensures
            r == (if self.entries().contains_key(cells@) {
                Some(self.entries()[cells@])
            } else {
                None::<usize>
            }),
    {
        index_get(&self.index, cells)
    }

    /// Offers `cells`, one move from node `parent`. It is stored, as a new node
    /// that replaces any earlier one for the same grid, only when no path to it
    /// of at most as many moves is known; the number of the new node is returned.
    #[verifier::rlimit(50)]
    pub fn relax(&mut self, parent: usize, cells: Vec<usize>, blank: usize, h: u64) -> (r: Option<usize>)
        requires
            old(self).wf(),
            parent < old(self).spec_nodes().len(),
            old(self).spec_nodes().len() < usize::MAX,
            valid_board(old(self).spec_side(), cells@),
            blank_at(cells@, blank as int),
            is_move(old(self).spec_side(), old(self).spec_nodes()[parent as int].cells@, cells@),
        ensures
            final(self).wf(),
            final(self).spec_side() == old(self).spec_side(),
            final(self).start() == old(self).start(),
            costs_no_worse(old(self).best_costs(), final(self).best_costs()),
            old(self).spec_nodes().len() <= final(self).spec_nodes().len(),
            forall|i: int|
                0 <= i < old(self).spec_nodes().len() ==> #[trigger] final(self).spec_nodes()[i]
                    == old(self).spec_nodes()[i],
            ({
                let g = old(self).spec_nodes()[parent as int].g + 1;
                if old(self).best_costs().contains_key(cells@) && old(self).best_costs()[cells@] <= g {
                    &&& r is None
                    &&& final(self).spec_nodes() == old(self).spec_nodes()
                    &&& final(self).entries() == old(self).entries()
                } else {
                    &&& r == Some(old(self).spec_nodes().len() as usize)
                    &&& final(self).spec_nodes().len() == old(self).spec_nodes().len() + 1
                    &&& final(self).spec_nodes().last().cells@ == cells@
                    &&& final(self).spec_nodes().last().g == g
                    &&& final(self).spec_nodes().last().h == h
                    &&& final(self).spec_nodes().last().blank == blank
                    &&& final(self).spec_nodes().last().parent == Some(parent)
                    &&& final(self).entries() == old(self).entries().insert(
                        cells@,
                        old(self).spec_nodes().len() as usize,
                    )
                    &&& final(self).best_costs() == old(self).best_costs().insert(cells@, g as nat)
                }
            }),
    {
        reveal(VisitedTable::wf);
        assert(self.node_ok(parent as int));
        let g = self.nodes[parent].g + 1;
        match index_get(&self.index, &cells) {
            Some(i) => {
                if self.nodes[i].g <= g {
                    return None;
                }
            },
            None => {},
        }
        let ghost before = *self;
        let n = self.nodes.len();
        let key = copy_cells(&cells);
        index_insert(&mut self.index, key, n);
        self.nodes.push(SearchNode { cells, g, h, blank, parent: Some(parent) });
        proof {
            assert forall|i: int| 0 <= i < self.spec_nodes().len() implies #[trigger] self.node_ok(i) by {
                if i < n {
                    assert(before.node_ok(i));
                    assert(self.spec_nodes()[i] == before.spec_nodes()[i]);
                    if let Some(p) = self.spec_nodes()[i].parent {
                        assert(self.spec_nodes()[p as int] == before.spec_nodes()[p as int]);
                    }
                } else {
                    assert(self.spec_nodes()[parent as int] == before.spec_nodes()[parent as int]);
                    assert(before.node_ok(parent as int));
                }
            }
            assert forall|i: int| 0 <= i < self.spec_nodes().len() implies self.entries().contains_key(
                (#[trigger] self.spec_nodes()[i]).cells@,
            ) && self.spec_nodes()[self.entries()[self.spec_nodes()[i].cells@] as int].g
                <= self.spec_nodes()[i].g by {
                if i < n {
                    assert(self.spec_nodes()[i] == before.spec_nodes()[i]);
                    let c = before.spec_nodes()[i].cells@;
                    let j = before.entries()[c] as int;
                    if c != cells@ {
                        assert(self.spec_nodes()[j] == before.spec_nodes()[j]);
                    } else {
                        assert(before.spec_nodes()[j].g <= before.spec_nodes()[i].g);
                    }
                }
            }
            assert forall|a: int, b: int|
                0 <= a < b < self.spec_nodes().len() && (#[trigger] self.spec_nodes()[a]).cells@
                    == (#[trigger] self.spec_nodes()[b]).cells@ implies self.spec_nodes()[b].g
                < self.spec_nodes()[a].g by {
                assert(self.spec_nodes()[a] == before.spec_nodes()[a]);
                if b < n {
                    assert(self.spec_nodes()[b] == before.spec_nodes()[b]);
                } else {
                    let j = before.entries()[cells@] as int;
                    assert(before.spec_nodes()[j].g <= before.spec_nodes()[a].g);
                }
            }
            assert forall|k: Seq<usize>| #[trigger] self.entries().contains_key(k) implies self.entries()[k]
                < self.spec_nodes().len() && self.spec_nodes()[self.entries()[k] as int].cells@ == k by {
                if k != cells@ {
                    assert(before.entries().contains_key(k));
                    let j = before.entries()[k] as int;
                    assert(self.spec_nodes()[j] == before.spec_nodes()[j]);
                }
            }
            assert(self.best_costs() =~= before.best_costs().insert(cells@, g as nat)) by {
                assert forall|k: Seq<usize>| #[trigger] self.best_costs().contains_key(k) && k != cells@
                    implies self.best_costs()[k] == before.best_costs()[k] by {
                    let j = before.entries()[k] as int;
                    assert(self.spec_nodes()[j] == before.spec_nodes()[j]);
                }
            }
        }
        Some(n)
    }

    /// The grids from the start to `goal`, following parent links back from the
    /// node stored for `goal`; it has one more grid than that node has moves.
    pub fn reconstruct(&self, goal: &Vec<usize>) -> (r: Vec<Board>)
        requires
            self.wf(),
            self.entries().contains_key(goal@),
        ensures
            r@.len() == self.spec_nodes()[self.entries()[goal@] as int].g + 1,
            r@[0]@ == self.start(),
            r@.last()@ == goal@,
            forall|i: int| 0 <= i < r@.len() ==> (#[trigger] r@[i]).wf() && r@[i].spec_side() == self.spec_side(),
            forall|i: int| 0 <= i < r@.len() - 1 ==> is_move(self.spec_side(), #[trigger] r@[i]@, r@[i + 1]@),
            forall|i: int, j: int| 0 <= i < j < r@.len() ==> #[trigger] r@[i]@ != #[trigger] r@[j]@,
            exists|ks: Seq<usize>|
                #[trigger] chain_of(*self, ks, grids_of(r@), self.entries()[goal@]),
    {
        reveal(VisitedTable::wf);
        let end = match index_get(&self.index, goal) {
            Some(i) => i,
            None => 0,
        };
        let mut cur: usize = end;
        let mut back: Vec<usize> = Vec::new();
        back.push(cur);
        assert(self.node_ok(cur as int));
        while self.nodes[cur].parent.is_some()
            invariant
                self.wf(),
                end < self.spec_nodes().len(),
                cur < self.spec_nodes().len(),
                back@.len() >= 1,
                back@[0] == end,
                back@.last() == cur,
                forall|t: int| 0 <= t < back@.len() ==> (#[trigger] back@[t]) < self.spec_nodes().len(),
                forall|t: int|
                    0 <= t < back@.len() - 1 ==> is_move(
                        self.spec_side(),
                        self.spec_nodes()[back@[t + 1] as int].cells@,
                        #[trigger] self.spec_nodes()[back@[t] as int].cells@,
                    ),
                back@.len() + self.spec_nodes()[cur as int].g == self.spec_nodes()[end as int].g + 1,
                forall|t: int| 0 <= t < back@.len() - 1 ==> self.spec_nodes()[back@[t] as int].parent == Some(
                    #[trigger] back@[t + 1],
                ),
                forall|t: int|
                    0 <= t < back@.len() ==> self.spec_nodes()[(#[trigger] back@[t]) as int].g
                        == self.spec_nodes()[end as int].g - t,
            decreases cur,
        {
            proof { lemma_wf_node(*self, cur as int); }
            let p = match self.nodes[cur].parent {
                Some(p) => p,
                None => cur,
            };
            assert(self.spec_nodes()[cur as int].parent == Some(p));
            assert(self.spec_nodes()[p as int].g + 1 == self.spec_nodes()[cur as int].g);
            let ghost old_back = back@;
            back.push(p);
            assert(back@[back@.len() - 1] == p);
            assert forall|t: int| 0 <= t < back@.len() - 1 implies self.spec_nodes()[back@[t] as int].parent == Some(
                #[trigger] back@[t + 1],
            ) by {
                if t < old_back.len() - 1 {
                    assert(back@[t] == old_back[t] && back@[t + 1] == old_back[t + 1]);
                }
            }
            assert forall|t: int| 0 <= t < back@.len() implies self.spec_nodes()[(#[trigger] back@[t]) as int].g
                == self.spec_nodes()[end as int].g - t by {
                if t < old_back.len() {
                    assert(back@[t] == old_back[t]);
                }
            }
            assert forall|t: int| 0 <= t < back@.len() - 1 implies is_move(
                self.spec_side(),
                self.spec_nodes()[back@[t + 1] as int].cells@,
                #[trigger] self.spec_nodes()[back@[t] as int].cells@,
            ) by {
                if t < old_back.len() - 1 {
                    assert(back@[t] == old_back[t] && back@[t + 1] == old_back[t + 1]);
                }
            }
            cur = p;
        }
        assert(self.node_ok(cur as int));
        let n = self.side;
        let mut path: Vec<Board> = Vec::new();
        let mut k: usize = back.len();
        while k > 0
            invariant
                self.wf(),
                n == self.spec_side(),
                k <= back@.len(),
                back@.len() >= 1,
                back@.last() == 0,
                back@[0] == end,
                forall|t: int| 0 <= t < back@.len() ==> (#[trigger] back@[t]) < self.spec_nodes().len(),
                path@.len() == back@.len() - k,
                forall|t: int|
                    0 <= t < path@.len() ==> (#[trigger] path@[t])@ == self.spec_nodes()[back@[back@.len() - 1 - t] as int].cells@
                        && path@[t].wf() && path@[t].spec_side() == n,
            decreases k,
        {
            k = k - 1;
            let i = back[k];
            proof { lemma_wf_node(*self, i as int); }
            let cells = copy_cells(&self.nodes[i].cells);
            path.push(Board::from_valid(n, cells));
        }
        assert forall|i: int| 0 <= i < path@.len() - 1 implies is_move(n as nat, #[trigger] path@[i]@, path@[i + 1]@) by {
            let t = back@.len() - 2 - i;
            assert(back@.len() - 1 - i == t + 1);
            assert(back@.len() - 1 - (i + 1) == t);
        }
        assert(self.spec_nodes()[0].cells@ == self.start());
        proof {
            let pv = grids_of(path@);
            assert forall|i: int| 0 <= i < pv.len() implies #[trigger] pv[i] == self.spec_nodes()[back@[back@.len() - 1
                - i] as int].cells@ by {
                assert(pv[i] == path@[i]@);
            }
            lemma_chain_path(*self, back@, pv, end);
            assert forall|i: int, j: int| 0 <= i < j < path@.len() implies #[trigger] path@[i]@
                != #[trigger] path@[j]@ by {
                assert(pv[i] == path@[i]@ && pv[j] == path@[j]@);
            }
            let ks = choose|ks: Seq<usize>| #[trigger] chain_of(*self, ks, pv, end);
            assert forall|i: int| 0 <= i < ks.len() implies ks[i] < self.spec_nodes().len()
                && (#[trigger] path@[i])@ == self.spec_nodes()[ks[i] as int].cells@
                && self.spec_nodes()[ks[i] as int].g == i by {
                assert(pv[i] == path@[i]@);
            }
        }
        path
    }
}

/// Along a chain of parent links, node numbers increase.
proof fn lemma_chain_increasing(t: VisitedTable, ks: Seq<usize>, i: int, j: int)
    requires
        t.wf(),
        0 <= i < j < ks.len(),
        forall|k: int| 0 <= k < ks.len() ==> ks[k] < t.spec_nodes().len(),
        forall|k: int| 0 <= k < ks.len() - 1 ==> t.spec_nodes()[ks[k + 1] as int].parent == Some(#[trigger] ks[k]),
    ensures
        ks[i] < ks[j],
    decreases j - i,
{
    reveal(VisitedTable::wf);
    assert(t.node_ok(ks[j] as int));
    assert(t.spec_nodes()[ks[j] as int].parent == Some(ks[j - 1]));
    if j - 1 > i {
        lemma_chain_increasing(t, ks, i, j - 1);
    }
}

/// The grids of a sequence of boards.
pub open spec fn grids_of(path: Seq<Board>) -> Seq<Seq<usize>> {
    path.map_values(|b: Board| b@)
}

/// `ks` are node numbers from the start to node `end`, each the parent of the
/// next, the `i`-th reached by `i` moves and holding grid `pv[i]`.
pub open spec fn chain_of(t: VisitedTable, ks: Seq<usize>, pv: Seq<Seq<usize>>, end: usize) -> bool {
    &&& ks.len() == pv.len()
    &&& ks.len() >= 1
    &&& ks[0] == 0
    &&& ks.last() == end
    &&& forall|i: int| 0 <= i < ks.len() ==> ks[i] < t.spec_nodes().len()
        && (#[trigger] pv[i]) == t.spec_nodes()[ks[i] as int].cells@
        && t.spec_nodes()[ks[i] as int].g == i
    &&& forall|i: int| 0 <= i < ks.len() - 1 ==> t.spec_nodes()[ks[i + 1] as int].parent == Some(#[trigger] ks[i])
}

proof fn lemma_chain_path(t: VisitedTable, back: Seq<usize>, pv: Seq<Seq<usize>>, end: usize)
    requires
        t.wf(),
        back.len() >= 1,
        pv.len() == back.len(),
        back[0] == end,
        back.last() == 0,
        forall|k: int| 0 <= k < back.len() ==> (#[trigger] back[k]) < t.spec_nodes().len(),
        forall|k: int| 0 <= k < back.len() - 1 ==> t.spec_nodes()[back[k] as int].parent == Some(#[trigger] back[k + 1]),
        forall|k: int|
            0 <= k < back.len() ==> t.spec_nodes()[(#[trigger] back[k]) as int].g == t.spec_nodes()[end as int].g - k,
        back.len() == t.spec_nodes()[end as int].g + 1,
        forall|i: int| 0 <= i < pv.len() ==> #[trigger] pv[i] == t.spec_nodes()[back[back.len() - 1 - i] as int].cells@,
    ensures
        forall|i: int, j: int| 0 <= i < j < pv.len() ==> #[trigger] pv[i] != #[trigger] pv[j],
        exists|ks: Seq<usize>| #[trigger] chain_of(t, ks, pv, end),
{
    reveal(VisitedTable::wf);
    let m = back.len();
    let ks = Seq::new(m, |i: int| back[m - 1 - i]);
    assert forall|i: int| 0 <= i < ks.len() implies ks[i] < t.spec_nodes().len() && (#[trigger] pv[i])
        == t.spec_nodes()[ks[i] as int].cells@ && t.spec_nodes()[ks[i] as int].g == i by {
        assert(back[m - 1 - i] < t.spec_nodes().len());
    }
    assert forall|i: int| 0 <= i < ks.len() - 1 implies t.spec_nodes()[ks[i + 1] as int].parent == Some(
        #[trigger] ks[i],
    ) by {
        assert(back[m - 1 - (i + 1)] == back[(m - 1 - i) - 1]);
        assert(t.spec_nodes()[back[m - 2 - i] as int].parent == Some(back[m - 2 - i + 1]));
    }
    assert(chain_of(t, ks, pv, end));
    assert forall|i: int, j: int| 0 <= i < j < pv.len() implies #[trigger] pv[i] != #[trigger] pv[j] by {
        lemma_chain_increasing(t, ks, i, j);
        assert(t.spec_nodes()[ks[i] as int].cells@ == pv[i]);
        assert(t.spec_nodes()[ks[j] as int].cells@ == pv[j]);
    }
}

/// What a well-formed table says of node `i`.
pub proof fn lemma_wf_node(t: VisitedTable, i: int)
    requires
        t.wf(),
        0 <= i < t.spec_nodes().len(),
    ensures
        t.node_ok(i),
        t.spec_nodes().len() >= 1,
        t.spec_nodes()[0].g == 0,
        t.entries().contains_key(t.spec_nodes()[i].cells@),
        t.entries()[t.spec_nodes()[i].cells@] < t.spec_nodes().len(),
        t.spec_nodes()[t.entries()[t.spec_nodes()[i].cells@] as int].cells@ == t.spec_nodes()[i].cells@,
        t.spec_nodes()[t.entries()[t.spec_nodes()[i].cells@] as int].g <= t.spec_nodes()[i].g,
{
    reveal(VisitedTable::wf);
}

/// What a well-formed table says of a stored grid.
pub proof fn lemma_wf_entry(t: VisitedTable, c: Seq<usize>)
    requires
        t.wf(),
        t.entries().contains_key(c),
    ensures
        t.entries()[c] < t.spec_nodes().len(),
        t.spec_nodes()[t.entries()[c] as int].cells@ == c,
        t.node_ok(t.entries()[c] as int),
{
    reveal(VisitedTable::wf);
}

/// A well-formed table holds the start node, reached by no move.
pub proof fn lemma_wf_start(t: VisitedTable)
    requires
        t.wf(),
    ensures
        t.spec_nodes().len() >= 1,
        t.spec_nodes()[0].g == 0,
{
    reveal(VisitedTable::wf);
}

/// Of two nodes for one grid, the later one has the lower cost.
pub proof fn lemma_wf_same_grid(t: VisitedTable, a: int, b: int)
    requires
        t.wf(),
        0 <= a < b < t.spec_nodes().len(),
        t.spec_nodes()[a].cells@ == t.spec_nodes()[b].cells@,
    ensures
        t.spec_nodes()[b].g < t.spec_nodes()[a].g,
{
    reveal(VisitedTable::wf);
}

} // verus!

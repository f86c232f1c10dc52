//! Backend of a keyboard configuration application: primitives for key
//! geometry and color, a parser for the physical-layout description
//! format, a polymorphic daemon abstraction with an in-memory variant,
//! and a facade that owns one daemon and a map of attached boards and
//! reconciles that map on every refresh, reporting removals before
//! additions.
//!
//! Geometry is modeled in exact milli key-units (`i64`, one key unit =
//! 1000) rather than floating point: layout text must be ASCII, numbers
//! carry at most six integer and three fractional digits, and a layout
//! is bounded to 256 rows, 256 keys per row and a million row items, so
//! that logical coordinates fit a byte and cursor arithmetic cannot
//! overflow.

use vstd::prelude::*;

pub mod board;
pub mod codec;
pub mod color;
pub mod daemon;
pub mod layout_text;
pub mod physical_layout;
pub mod rect;

use crate::board::Board;
use crate::daemon::{BoardId, Daemon, DaemonDummy};

verus! {

/// Whether some pair of the board map carries the id.
pub open spec fn has_id(s: Seq<(BoardId, Board)>, id: BoardId) -> bool {
    exists|k: int| 0 <= k < s.len() && (#[trigger] s[k]).0 == id
}

/// Whether an id occurs in a list of ids.
pub open spec fn id_listed(ids: Seq<BoardId>, id: BoardId) -> bool {
    exists|k: int| 0 <= k < ids.len() && #[trigger] ids[k] == id
}

/// Whether a board with the id occurs in a list of boards.
pub open spec fn removed_listed(bs: Seq<Board>, id: BoardId) -> bool {
    exists|k: int| 0 <= k < bs.len() && (#[trigger] bs[k]).spec_id() == id
}

/// Whether the exact pair occurs in the board map.
pub open spec fn has_pair(s: Seq<(BoardId, Board)>, p: (BoardId, Board)) -> bool {
    exists|k: int| 0 <= k < s.len() && #[trigger] s[k] == p
}

/// No id occurs twice, and every board is filed under its own id.
pub open spec fn boards_wf(s: Seq<(BoardId, Board)>) -> bool {
    &&& forall|i: int, j: int| 0 <= i < j < s.len() ==> (#[trigger] s[i]).0 != (#[trigger] s[j]).0
    &&& forall|i: int| 0 <= i < s.len() ==> (#[trigger] s[i]).1.spec_id() == s[i].0
}

/// What one refresh cycle reported: the boards that departed (removed
/// from the map before being reported) and the ids that arrived (already
/// in the map when reported). Removals come before additions.
pub struct RefreshEvents {
    pub removed: Vec<Board>,
    pub added: Vec<BoardId>,
}

proof fn lemma_has_pair_push(s: Seq<(BoardId, Board)>, x: (BoardId, Board))
    ensures
        forall|p: (BoardId, Board)| has_pair(s, p) ==> #[trigger] has_pair(s.push(x), p),
        has_pair(s.push(x), x),
{
    assert forall|p: (BoardId, Board)| has_pair(s, p) implies #[trigger] has_pair(
        s.push(x),
        p,
    ) by {
        let k = choose|k: int| 0 <= k < s.len() && #[trigger] s[k] == p;
        assert(s.push(x)[k] == p);
    }
    assert(s.push(x)[s.len() as int] == x);
}

/// The facade: owns one daemon and a mapping of board id to board.
pub struct Backend<D: Daemon> {
    daemon: D,
    boards: Vec<(BoardId, Board)>,
}

impl<D: Daemon> Backend<D> {
    /// The board map's pairs, in insertion order.
    pub closed spec fn board_map(&self) -> Seq<(BoardId, Board)> {
        self.boards@
    }

    /// Whether a board with this id is cached.
    pub open spec fn has_board(&self, id: BoardId) -> bool {
        has_id(self.board_map(), id)
    }

    /// The map invariant: ids unique, each board under its own id.
    pub open spec fn wf(&self) -> bool {
        boards_wf(self.board_map())
    }

    /// The daemon this backend was constructed with.
    pub closed spec fn daemon_spec(&self) -> &D {
        &self.daemon
    }

    /// Wrap a daemon; the board map starts empty and is filled by
    /// `refresh`.
    pub fn with_daemon(daemon: D) -> (r: Backend<D>)
        ensures
            r.wf(),
            r.board_map() == Seq::<(BoardId, Board)>::empty(),
            *r.daemon_spec() == daemon,
    {
        Backend { daemon, boards: Vec::new() }
    }

    /// The cached board with this id, if any.
    pub fn board(&self, id: BoardId) -> (r: Option<&Board>)
        requires
            self.wf(),
        ensures
            r is Some <==> self.has_board(id),
            r is Some ==> r->0.spec_id() == id,
    {
        let n = self.boards.len();
        let mut k: usize = 0;
        while k < n
            invariant
                k <= n,
                n == self.board_map().len(),
                self.wf(),
                forall|m: int| 0 <= m < k ==> (#[trigger] self.board_map()[m]).0 != id,
            decreases n - k,
        {
            if self.boards[k].0.0 == id.0 {
                return Some(&self.boards[k].1);
            }
            k = k + 1;
        }
        proof {
            assert(!has_id(self.board_map(), id));
        }
        None
    }

    /// The ids currently cached, in map order.
    pub fn board_ids(&self) -> (r: Vec<BoardId>)
        ensures
            r@.len() == self.board_map().len(),
            forall|i: int| 0 <= i < r@.len() ==> r@[i] == (#[trigger] self.board_map()[i]).0,
    {
        let n = self.boards.len();
        let mut ids: Vec<BoardId> = Vec::new();
        let mut k: usize = 0;
        while k < n
            invariant
                k <= n,
                n == self.board_map().len(),
                ids@.len() == k,
                forall|i: int| 0 <= i < k ==> ids@[i] == (#[trigger] self.board_map()[i]).0,
            decreases n - k,
        {
            ids.push(self.boards[k].0);
            k = k + 1;
        }
        ids
    }

    /// Reconcile the board map against one reported board list: cached
    /// boards whose id is not listed leave the map and are reported,
    /// exactly those; cached pairs whose id is listed stay in the map
    /// untouched; listed ids not yet cached are constructed, inserted
    /// and reported, skipping those whose construction fails.
    #[verifier::loop_isolation(false)]
    #[verifier::rlimit(100)]
    pub fn apply_board_list(&mut self, new_ids: &Vec<BoardId>) -> (ev: RefreshEvents)
        requires
            old(self).wf(),
        ensures
            final(self).wf(),
            *final(self).daemon_spec() == *old(self).daemon_spec(),
            forall|id: BoardId|
                #![trigger removed_listed(ev.removed@, id)]
                #![trigger id_listed(new_ids@, id)]
                removed_listed(ev.removed@, id) <==> (old(self).has_board(id) && !id_listed(
                    new_ids@,
                    id,
                )),
            forall|id: BoardId|
                #![trigger final(self).has_board(id)]
                #![trigger old(self).has_board(id)]
                final(self).has_board(id) <==> ((old(self).has_board(id) && id_listed(
                    new_ids@,
                    id,
                )) || id_listed(ev.added@, id)),
            forall|id: BoardId|
                #![trigger id_listed(ev.added@, id)]
                id_listed(ev.added@, id) ==> id_listed(new_ids@, id) && !old(self).has_board(id),
            forall|k: int|
                0 <= k < old(self).board_map().len() && id_listed(
                    new_ids@,
                    (#[trigger] old(self).board_map()[k]).0,
                ) ==> has_pair(final(self).board_map(), old(self).board_map()[k]),
            forall|j: int|
                0 <= j < ev.removed@.len() ==> has_pair(
                    old(self).board_map(),
                    ((#[trigger] ev.removed@[j]).spec_id(), ev.removed@[j]),
                ),
            forall|i: int, j: int|
                0 <= i < j < ev.removed@.len() ==> (#[trigger] ev.removed@[i]).spec_id() != (
                #[trigger] ev.removed@[j]).spec_id(),
            forall|i: int, j: int|
                0 <= i < j < ev.added@.len() ==> (#[trigger] ev.added@[i]) != (
                #[trigger] ev.added@[j]),
    {
        let ghost prev = self.boards@;
        let mut olds: Vec<(BoardId, Board)> = Vec::new();
        core::mem::swap(&mut olds, &mut self.boards);
        let mut removed: Vec<Board> = Vec::new();
        proof {
            assert(olds@ =~= prev.take(olds@.len() as int));
        }
        while olds.len() > 0
            invariant
                self.daemon == old(self).daemon,
                olds@.len() <= prev.len(),
                olds@ == prev.take(olds@.len() as int),
                boards_wf(self.boards@),
                forall|id: BoardId|
                    #![trigger has_id(self.boards@, id)]
                    has_id(self.boards@, id) <==> (has_id(prev.skip(olds@.len() as int), id)
                        && id_listed(new_ids@, id)),
                forall|id: BoardId|
                    #![trigger removed_listed(removed@, id)]
                    removed_listed(removed@, id) <==> (has_id(prev.skip(olds@.len() as int), id)
                        && !id_listed(new_ids@, id)),
                forall|i: int, j: int|
                    0 <= i < j < removed@.len() ==> (#[trigger] removed@[i]).spec_id() != (
                    #[trigger] removed@[j]).spec_id(),
                forall|k: int|
                    olds@.len() <= k < prev.len() && id_listed(new_ids@, (#[trigger] prev[k]).0)
                        ==> has_pair(self.boards@, prev[k]),
                forall|j: int|
                    0 <= j < removed@.len() ==> has_pair(
                        prev,
                        ((#[trigger] removed@[j]).spec_id(), removed@[j]),
                    ),
            decreases olds@.len(),
        {
            let ghost l = olds@.len() as int;
            proof {
                assert(prev.take(l).last() == prev[l - 1]);
                assert(prev.take(l).drop_last() =~= prev.take(l - 1));
                assert forall|id: BoardId| #![trigger has_id(prev.skip(l - 1), id)] has_id(
                    prev.skip(l - 1),
                    id,
                ) <==> (prev[l - 1].0 == id || has_id(prev.skip(l), id)) by {
                    if has_id(prev.skip(l - 1), id) {
                        let k = choose|k: int|
                            0 <= k < prev.skip(l - 1).len() && (#[trigger] prev.skip(l - 1)[k]).0
                                == id;
                        if k == 0 {
                            assert(prev[l - 1].0 == id);
                        } else {
                            assert(prev.skip(l)[k - 1] == prev.skip(l - 1)[k]);
                        }
                    }
                    if prev[l - 1].0 == id {
                        assert(prev.skip(l - 1)[0].0 == id);
                    }
                    if has_id(prev.skip(l), id) {
                        let k = choose|k: int|
                            0 <= k < prev.skip(l).len() && (#[trigger] prev.skip(l)[k]).0 == id;
                        assert(prev.skip(l - 1)[k + 1].0 == id);
                    }
                }
                assert forall|id: BoardId| has_id(prev.skip(l), id) implies id != prev[l - 1].0 by {
                    let k = choose|k: int|
                        0 <= k < prev.skip(l).len() && (#[trigger] prev.skip(l)[k]).0 == id;
                    assert(prev.skip(l)[k] == prev[k + l]);
                    assert(prev[l - 1].0 != prev[k + l].0);
                }
            }
            let pair = olds.pop().unwrap();
            let ghost pid = pair.0;
            proof {
                assert(pair == prev[l - 1]);
                assert(olds@.len() as int == l - 1);
            }
            let mut listed = false;
            let n = new_ids.len();
            let mut t: usize = 0;
            while t < n
                invariant
                    t <= n,
                    n == new_ids@.len(),
                    listed ==> id_listed(new_ids@, pair.0),
                    !listed ==> forall|m: int| 0 <= m < t ==> new_ids@[m] != pair.0,
                decreases n - t,
            {
                if new_ids[t].0 == pair.0.0 {
                    proof {
                        assert(new_ids@[t as int] == pair.0);
                    }
                    listed = true;
                    t = n;
                } else {
                    t = t + 1;
                }
            }
            if listed {
                proof {
                    assert(!has_id(self.boards@, pair.0));
                }
                let ghost pre = self.boards@;
                self.boards.push(pair);
                proof {
                    lemma_has_pair_push(pre, pair);
                    assert(has_pair(self.boards@, prev[l - 1]));
                    assert forall|id: BoardId| #![trigger has_id(self.boards@, id)] has_id(
                        self.boards@,
                        id,
                    ) <==> (has_id(pre, id) || id == pid) by {
                        if has_id(self.boards@, id) {
                            let k = choose|k: int|
                                0 <= k < self.boards@.len() && (#[trigger] self.boards@[k]).0
                                    == id;
                            if k < pre.len() {
                                assert(pre[k].0 == id);
                            }
                        }
                        if has_id(pre, id) {
                            let k = choose|k: int|
                                0 <= k < pre.len() && (#[trigger] pre[k]).0 == id;
                            assert(self.boards@[k].0 == id);
                        }
                        if id == pid {
                            assert(self.boards@[pre.len() as int].0 == id);
                        }
                    }
                    assert(id_listed(new_ids@, pid));
                    assert forall|id: BoardId| #![trigger has_id(self.boards@, id)] has_id(
                        self.boards@,
                        id,
                    ) <==> (has_id(prev.skip(l - 1), id) && id_listed(new_ids@, id)) by {
                        assert(has_id(pre, id) <==> (has_id(prev.skip(l), id) && id_listed(
                            new_ids@,
                            id,
                        )));
                        assert(has_id(prev.skip(l - 1), id) <==> (prev[l - 1].0 == id || has_id(
                            prev.skip(l),
                            id,
                        )));
                    }
                    assert forall|id: BoardId| #![trigger removed_listed(removed@, id)]
                        removed_listed(removed@, id) <==> (has_id(prev.skip(l - 1), id)
                        && !id_listed(new_ids@, id)) by {
                        assert(removed_listed(removed@, id) <==> (has_id(prev.skip(l), id)
                            && !id_listed(new_ids@, id)));
                        assert(has_id(prev.skip(l - 1), id) <==> (prev[l - 1].0 == id || has_id(
                            prev.skip(l),
                            id,
                        )));
                    }
                }
            } else {
                proof {
                    assert forall|m: int| 0 <= m < new_ids@.len() implies new_ids@[m] != pair.0
                        by {}
                    assert(!id_listed(new_ids@, pair.0));
                    assert(!removed_listed(removed@, pair.0));
                }
                let ghost pre = removed@;
                removed.push(pair.1);
                proof {
                    assert(removed@[pre.len() as int] == pair.1);
                    assert(prev[l - 1].1.spec_id() == prev[l - 1].0);
                    assert(prev[l - 1] == (pair.1.spec_id(), pair.1));
                    assert(has_pair(prev, (pair.1.spec_id(), pair.1)));
                    assert forall|j: int| 0 <= j < removed@.len() implies has_pair(
                        prev,
                        ((#[trigger] removed@[j]).spec_id(), removed@[j]),
                    ) by {
                        if j < pre.len() {
                            assert(removed@[j] == pre[j]);
                        }
                    }
                    assert forall|id: BoardId| #![trigger removed_listed(removed@, id)]
                        removed_listed(removed@, id) <==> (removed_listed(pre, id) || id == pid)
                        by {
                        if removed_listed(removed@, id) {
                            let k = choose|k: int|
                                0 <= k < removed@.len() && (#[trigger] removed@[k]).spec_id()
                                    == id;
                            if k < pre.len() {
                                assert(pre[k].spec_id() == id);
                            }
                        }
                        if removed_listed(pre, id) {
                            let k = choose|k: int|
                                0 <= k < pre.len() && (#[trigger] pre[k]).spec_id() == id;
                            assert(removed@[k].spec_id() == id);
                        }
                        if id == pid {
                            assert(removed@[pre.len() as int].spec_id() == id);
                        }
                    }
                    assert forall|i: int| 0 <= i < pre.len() implies (
                    #[trigger] removed@[i]).spec_id() != pid by {
                        assert(removed@[i] == pre[i]);
                        if pre[i].spec_id() == pid {
                            assert(removed_listed(pre, pid));
                        }
                    }
                    assert(removed@[pre.len() as int].spec_id() == pid);
                    assert forall|id: BoardId| #![trigger has_id(self.boards@, id)] has_id(
                        self.boards@,
                        id,
                    ) <==> (has_id(prev.skip(l - 1), id) && id_listed(new_ids@, id)) by {
                        assert(has_id(self.boards@, id) <==> (has_id(prev.skip(l), id)
                            && id_listed(new_ids@, id)));
                        assert(has_id(prev.skip(l - 1), id) <==> (prev[l - 1].0 == id || has_id(
                            prev.skip(l),
                            id,
                        )));
                    }
                    assert forall|id: BoardId| #![trigger removed_listed(removed@, id)]
                        removed_listed(removed@, id) <==> (has_id(prev.skip(l - 1), id)
                        && !id_listed(new_ids@, id)) by {
                        assert(removed_listed(pre, id) <==> (has_id(prev.skip(l), id)
                            && !id_listed(new_ids@, id)));
                        assert(has_id(prev.skip(l - 1), id) <==> (prev[l - 1].0 == id || has_id(
                            prev.skip(l),
                            id,
                        )));
                    }
                }
            }
        }
        proof {
            assert(prev.skip(0) =~= prev);
            assert(olds@.len() == 0);
            assert forall|id: BoardId| #![trigger has_id(self.boards@, id)] has_id(
                self.boards@,
                id,
            ) <==> (has_id(prev, id) && id_listed(new_ids@, id)) by {
                assert(has_id(self.boards@, id) <==> (has_id(prev.skip(0), id) && id_listed(
                    new_ids@,
                    id,
                )));
            }
            assert forall|id: BoardId| #![trigger removed_listed(removed@, id)] removed_listed(
                removed@,
                id,
            ) <==> (has_id(prev, id) && !id_listed(new_ids@, id)) by {
                assert(removed_listed(removed@, id) <==> (has_id(prev.skip(0), id) && !id_listed(
                    new_ids@,
                    id,
                )));
            }
        }
        let ghost kept = self.boards@;
        let ghost frozen_removed = removed@;
        let mut added: Vec<BoardId> = Vec::new();
        let n = new_ids.len();
        let mut t: usize = 0;
        while t < n
            invariant
                self.daemon == old(self).daemon,
                t <= n,
                n == new_ids@.len(),
                boards_wf(self.boards@),
                removed@ == frozen_removed,
                forall|id: BoardId|
                    #![trigger has_id(self.boards@, id)]
                    has_id(self.boards@, id) <==> (has_id(kept, id) || id_listed(added@, id)),
                forall|id: BoardId|
                    #![trigger id_listed(added@, id)]
                    id_listed(added@, id) ==> id_listed(new_ids@, id) && !has_id(prev, id),
                forall|i: int, j: int| 0 <= i < j < added@.len() ==> added@[i] != added@[j],
                forall|id: BoardId|
                    #![trigger has_id(kept, id)]
                    has_id(kept, id) <==> (has_id(prev, id) && id_listed(new_ids@, id)),
                forall|id: BoardId|
                    #![trigger removed_listed(frozen_removed, id)]
                    removed_listed(frozen_removed, id) <==> (has_id(prev, id) && !id_listed(
                        new_ids@,
                        id,
                    )),
                forall|k: int|
                    0 <= k < prev.len() && id_listed(new_ids@, (#[trigger] prev[k]).0)
                        ==> has_pair(self.boards@, prev[k]),
            decreases n - t,
        {
            let id = new_ids[t];
            proof {
                assert(id_listed(new_ids@, id));
            }
            let mut present = false;
            let bn = self.boards.len();
            let mut k: usize = 0;
            while k < bn
                invariant
                    k <= bn,
                    bn == self.boards@.len(),
                    present ==> has_id(self.boards@, id),
                    !present ==> forall|m: int| 0 <= m < k ==> (#[trigger] self.boards@[m]).0
                        != id,
                decreases bn - k,
            {
                if self.boards[k].0.0 == id.0 {
                    proof {
                        assert(self.boards@[k as int].0 == id);
                    }
                    present = true;
                    k = bn;
                } else {
                    k = k + 1;
                }
            }
            if !present {
                proof {
                    assert(!has_id(self.boards@, id));
                    if has_id(prev, id) {
                        assert(has_id(kept, id));
                        assert(has_id(self.boards@, id));
                    }
                    assert(!has_id(prev, id));
                    assert(!id_listed(added@, id));
                }
                match Board::new(&self.daemon, id) {
                    Ok(b) => {
                        let ghost pre_b = self.boards@;
                        let ghost pre_a = added@;
                        self.boards.push((id, b));
                        added.push(id);
                        proof {
                            lemma_has_pair_push(pre_b, (id, b));
                            assert forall|id2: BoardId| #![trigger has_id(self.boards@, id2)]
                                has_id(self.boards@, id2) <==> (has_id(pre_b, id2) || id2 == id)
                                by {
                                if has_id(self.boards@, id2) {
                                    let k2 = choose|k2: int|
                                        0 <= k2 < self.boards@.len() && (
                                        #[trigger] self.boards@[k2]).0 == id2;
                                    if k2 < pre_b.len() {
                                        assert(pre_b[k2].0 == id2);
                                    }
                                }
                                if has_id(pre_b, id2) {
                                    let k2 = choose|k2: int|
                                        0 <= k2 < pre_b.len() && (#[trigger] pre_b[k2]).0 == id2;
                                    assert(self.boards@[k2].0 == id2);
                                }
                                if id2 == id {
                                    assert(self.boards@[pre_b.len() as int].0 == id2);
                                }
                            }
                            assert forall|id2: BoardId| #![trigger id_listed(added@, id2)]
                                id_listed(added@, id2) <==> (id_listed(pre_a, id2) || id2 == id)
                                by {
                                if id_listed(added@, id2) {
                                    let k2 = choose|k2: int|
                                        0 <= k2 < added@.len() && #[trigger] added@[k2] == id2;
                                    if k2 < pre_a.len() {
                                        assert(pre_a[k2] == id2);
                                    }
                                }
                                if id_listed(pre_a, id2) {
                                    let k2 = choose|k2: int|
                                        0 <= k2 < pre_a.len() && #[trigger] pre_a[k2] == id2;
                                    assert(added@[k2] == id2);
                                }
                                if id2 == id {
                                    assert(added@[pre_a.len() as int] == id2);
                                }
                            }
                            assert forall|i: int| 0 <= i < pre_a.len() implies #[trigger] added@[i]
                                != id by {
                                assert(added@[i] == pre_a[i]);
                                if pre_a[i] == id {
                                    assert(id_listed(pre_a, id));
                                }
                            }
                        }
                    },
                    Err(_) => {},
                }
            }
            t = t + 1;
        }
        proof {
            assert forall|id: BoardId| #![trigger id_listed(added@, id)] id_listed(
                added@,
                id,
            ) implies !has_id(prev, id) && has_id(self.boards@, id) by {
                assert(has_id(self.boards@, id) <==> (has_id(kept, id) || id_listed(added@, id)));
            }
        }
        RefreshEvents { removed, added }
    }

    /// One refresh cycle. The daemon re-scans (an error there is
    /// tolerated: the stale cache stays authoritative); its board list
    /// is read (an error there aborts the cycle with no events); then
    /// the map is reconciled against that list by `apply_board_list`,
    /// which carries the exact contract; removals are reported before
    /// additions.
    pub fn refresh(&mut self) -> (ev: RefreshEvents)
        requires
            old(self).wf(),
        ensures
            final(self).wf(),
            forall|id: BoardId|
                #![trigger final(self).has_board(id)]
                #![trigger old(self).has_board(id)]
                final(self).has_board(id) <==> ((old(self).has_board(id) && !removed_listed(
                    ev.removed@,
                    id,
                )) || id_listed(ev.added@, id)),
            forall|id: BoardId|
                #![trigger removed_listed(ev.removed@, id)]
                removed_listed(ev.removed@, id) ==> old(self).has_board(id)
                    && !final(self).has_board(id),
            forall|id: BoardId|
                #![trigger id_listed(ev.added@, id)]
                id_listed(ev.added@, id) ==> !old(self).has_board(id) && final(self).has_board(id),
            forall|j: int|
                0 <= j < ev.removed@.len() ==> has_pair(
                    old(self).board_map(),
                    ((#[trigger] ev.removed@[j]).spec_id(), ev.removed@[j]),
                ),
            forall|k: int|
                0 <= k < old(self).board_map().len() && !removed_listed(
                    ev.removed@,
                    (#[trigger] old(self).board_map()[k]).0,
                ) ==> has_pair(final(self).board_map(), old(self).board_map()[k]),
            forall|i: int, j: int|
                0 <= i < j < ev.removed@.len() ==> (#[trigger] ev.removed@[i]).spec_id() != (
                #[trigger] ev.removed@[j]).spec_id(),
            forall|i: int, j: int|
                0 <= i < j < ev.added@.len() ==> (#[trigger] ev.added@[i]) != (
                #[trigger] ev.added@[j]),
    {
        let _ = self.daemon.refresh();
        let new_ids = match self.daemon.boards() {
            Ok(v) => v,
            Err(_) => {
                let ev = RefreshEvents { removed: Vec::new(), added: Vec::new() };
                proof {
                    assert forall|k: int|
                        0 <= k < old(self).board_map().len() && !removed_listed(
                            ev.removed@,
                            (#[trigger] old(self).board_map()[k]).0,
                        ) implies has_pair(final(self).board_map(), old(self).board_map()[k]) by {
                        assert(final(self).board_map()[k] == old(self).board_map()[k]);
                    }
                }
                return ev;
            },
        };
        let ghost pre = *self;
        let ev = self.apply_board_list(&new_ids);
        proof {
            assert forall|k: int|
                0 <= k < pre.board_map().len() && !removed_listed(
                    ev.removed@,
                    (#[trigger] pre.board_map()[k]).0,
                ) implies has_pair(final(self).board_map(), pre.board_map()[k]) by {
                let id = pre.board_map()[k].0;
                assert(has_id(pre.board_map(), id));
                assert(removed_listed(ev.removed@, id) <==> (pre.has_board(id) && !id_listed(
                    new_ids@,
                    id,
                )));
                assert(id_listed(new_ids@, id));
            }
        }
        ev
    }
}

impl Backend<DaemonDummy> {
    /// A backend over the in-memory daemon, one synthesized board per
    /// model name.
    pub fn new_dummy(board_names: Vec<String>) -> (r: Result<Backend<DaemonDummy>, String>)
        ensures
            r is Ok,
            r->Ok_0.wf(),
            r->Ok_0.board_map() == Seq::<(BoardId, Board)>::empty(),
            r->Ok_0.daemon_spec().names().len() == board_names@.len(),
            forall|i: int|
                0 <= i < board_names@.len() ==> r->Ok_0.daemon_spec().names()[i] == Some(
                    (#[trigger] board_names@[i])@,
                ),
            r->Ok_0.daemon_spec().keymap_view() == Map::<u128, u16>::empty(),
            r->Ok_0.daemon_spec().colors_view() == Map::<u128, crate::color::Rgb>::empty(),
            r->Ok_0.daemon_spec().brightness_view() == Map::<u128, i32>::empty(),
            r->Ok_0.daemon_spec().modes_view() == Map::<u128, (u8, u8)>::empty(),
    {
        Ok(Backend::with_daemon(DaemonDummy::new(board_names)))
    }

    /// One refresh cycle against the in-memory daemon, whose answers
    /// are exact, so the whole reconciliation is pinned: afterwards the
    /// map holds exactly the daemon's attached boards; the removals are
    /// exactly the cached boards no longer attached; the additions are
    /// exactly the attached boards not yet cached. Board construction
    /// cannot fail on an attached in-memory board, so nothing is
    /// skipped.
    #[verifier::loop_isolation(false)]
    #[verifier::rlimit(100)]
    pub fn refresh_dummy(&mut self) -> (ev: RefreshEvents)
        requires
            old(self).wf(),
        ensures
            final(self).wf(),
            *final(self).daemon_spec() == *old(self).daemon_spec(),
            forall|id: BoardId|
                #![trigger final(self).has_board(id)]
                #![trigger old(self).has_board(id)]
                final(self).has_board(id) <==> old(self).daemon_spec().valid_board(id),
            forall|id: BoardId|
                #![trigger removed_listed(ev.removed@, id)]
                removed_listed(ev.removed@, id) <==> (old(self).has_board(id) && !old(
                    self,
                ).daemon_spec().valid_board(id)),
            forall|id: BoardId|
                #![trigger id_listed(ev.added@, id)]
                id_listed(ev.added@, id) <==> (old(self).daemon_spec().valid_board(id) && !old(
                    self,
                ).has_board(id)),
            forall|i: int, j: int|
                0 <= i < j < ev.removed@.len() ==> (#[trigger] ev.removed@[i]).spec_id() != (
                #[trigger] ev.removed@[j]).spec_id(),
            forall|i: int, j: int|
                0 <= i < j < ev.added@.len() ==> (#[trigger] ev.added@[i]) != (
                #[trigger] ev.added@[j]),
    {
        let ghost prev = self.boards@;
        let _ = self.daemon.refresh();
        let new_ids = match self.daemon.boards() {
            Ok(v) => v,
            Err(_) => {
                proof {
                    assert(false);
                }
                return RefreshEvents { removed: Vec::new(), added: Vec::new() };
            },
        };
        proof {
            assert forall|id: BoardId| #![trigger id_listed(new_ids@, id)] id_listed(
                new_ids@,
                id,
            ) <==> self.daemon.valid_board(id) by {
                if id_listed(new_ids@, id) {
                    let k = choose|k: int|
                        0 <= k < new_ids@.len() && #[trigger] new_ids@[k] == id;
                    assert(self.daemon.valid_board(new_ids@[k]));
                }
                if self.daemon.valid_board(id) {
                    assert(id_listed(new_ids@, BoardId(id.0 as int as u64)));
                }
            }
        }
        let ghost dsnap = self.daemon;
        let mut ev = self.apply_board_list(&new_ids);
        proof {
            assert(self.daemon == dsnap);
            assert forall|id: BoardId| #![trigger id_listed(ev.added@, id)] id_listed(
                ev.added@,
                id,
            ) <==> (has_id(self.boards@, id) && !has_id(prev, id)) by {
                assert(self.has_board(id) <==> ((has_id(prev, id) && id_listed(new_ids@, id))
                    || id_listed(ev.added@, id)));
            }
        }
        let n = new_ids.len();
        let mut t: usize = 0;
        while t < n
            invariant
                t <= n,
                n == new_ids@.len(),
                self.daemon == dsnap,
                boards_wf(self.boards@),
                forall|id: BoardId|
                    #![trigger id_listed(ev.added@, id)]
                    id_listed(ev.added@, id) <==> (has_id(self.boards@, id) && !has_id(prev, id)),
                forall|id: BoardId|
                    #![trigger has_id(self.boards@, id)]
                    has_id(self.boards@, id) ==> id_listed(new_ids@, id),
                forall|id: BoardId|
                    #![trigger has_id(prev, id)]
                    has_id(prev, id) && id_listed(new_ids@, id) ==> has_id(self.boards@, id),
                forall|m: int| 0 <= m < t ==> has_id(self.boards@, #[trigger] new_ids@[m]),
                forall|i: int, j: int|
                    0 <= i < j < ev.added@.len() ==> (#[trigger] ev.added@[i]) != (
                    #[trigger] ev.added@[j]),
                forall|id: BoardId|
                    #![trigger removed_listed(ev.removed@, id)]
                    removed_listed(ev.removed@, id) <==> (has_id(prev, id) && !id_listed(
                        new_ids@,
                        id,
                    )),
                forall|i: int, j: int|
                    0 <= i < j < ev.removed@.len() ==> (#[trigger] ev.removed@[i]).spec_id() != (
                    #[trigger] ev.removed@[j]).spec_id(),
            decreases n - t,
        {
            let id = new_ids[t];
            proof {
                assert(new_ids@[t as int] == id);
                assert(id_listed(new_ids@, id));
            }
            let mut present = false;
            let bn = self.boards.len();
            let mut k: usize = 0;
            while k < bn
                invariant
                    k <= bn,
                    bn == self.boards@.len(),
                    present ==> has_id(self.boards@, id),
                    !present ==> forall|m: int| 0 <= m < k ==> (#[trigger] self.boards@[m]).0
                        != id,
                decreases bn - k,
            {
                if self.boards[k].0.0 == id.0 {
                    proof {
                        assert(self.boards@[k as int].0 == id);
                    }
                    present = true;
                    k = bn;
                } else {
                    k = k + 1;
                }
            }
            if !present {
                proof {
                    assert(!has_id(self.boards@, id));
                    assert(!id_listed(ev.added@, id));
                    if has_id(prev, id) {
                        assert(has_id(self.boards@, id));
                    }
                    assert(!has_id(prev, id));
                    assert(self.daemon.valid_board(id));
                }
                let model = match self.daemon.model(id) {
                    Ok(m) => m,
                    Err(_) => {
                        proof {
                            assert(false);
                        }
                        return RefreshEvents { removed: Vec::new(), added: Vec::new() };
                    },
                };
                let version = match self.daemon.version(id) {
                    Ok(v) => v,
                    Err(_) => {
                        proof {
                            assert(false);
                        }
                        return RefreshEvents { removed: Vec::new(), added: Vec::new() };
                    },
                };
                let b = Board::from_parts(id, model, version);
                let ghost pre_b = self.boards@;
                let ghost pre_a = ev.added@;
                self.boards.push((id, b));
                ev.added.push(id);
                proof {
                    assert forall|id2: BoardId| #![trigger has_id(self.boards@, id2)] has_id(
                        self.boards@,
                        id2,
                    ) <==> (has_id(pre_b, id2) || id2 == id) by {
                        if has_id(self.boards@, id2) {
                            let k2 = choose|k2: int|
                                0 <= k2 < self.boards@.len() && (#[trigger] self.boards@[k2]).0
                                    == id2;
                            if k2 < pre_b.len() {
                                assert(pre_b[k2].0 == id2);
                            }
                        }
                        if has_id(pre_b, id2) {
                            let k2 = choose|k2: int|
                                0 <= k2 < pre_b.len() && (#[trigger] pre_b[k2]).0 == id2;
                            assert(self.boards@[k2].0 == id2);
                        }
                        if id2 == id {
                            assert(self.boards@[pre_b.len() as int].0 == id2);
                        }
                    }
                    assert forall|id2: BoardId| #![trigger id_listed(ev.added@, id2)] id_listed(
                        ev.added@,
                        id2,
                    ) <==> (id_listed(pre_a, id2) || id2 == id) by {
                        if id_listed(ev.added@, id2) {
                            let k2 = choose|k2: int|
                                0 <= k2 < ev.added@.len() && #[trigger] ev.added@[k2] == id2;
                            if k2 < pre_a.len() {
                                assert(pre_a[k2] == id2);
                            }
                        }
                        if id_listed(pre_a, id2) {
                            let k2 = choose|k2: int|
                                0 <= k2 < pre_a.len() && #[trigger] pre_a[k2] == id2;
                            assert(ev.added@[k2] == id2);
                        }
                        if id2 == id {
                            assert(ev.added@[pre_a.len() as int] == id2);
                        }
                    }
                    assert forall|i2: int| 0 <= i2 < pre_a.len() implies #[trigger] ev.added@[i2]
                        != id by {
                        assert(ev.added@[i2] == pre_a[i2]);
                        if pre_a[i2] == id {
                            assert(id_listed(pre_a, id));
                        }
                    }
                }
            }
            t = t + 1;
        }
        proof {
            assert forall|id: BoardId| id_listed(new_ids@, id) implies has_id(
                self.boards@,
                id,
            ) by {
                let k = choose|k: int| 0 <= k < new_ids@.len() && #[trigger] new_ids@[k] == id;
                assert(has_id(self.boards@, new_ids@[k]));
            }
        }
        ev
    }

    /// Drop one of the dummy daemon's boards, as if the device were
    /// unplugged; the next refresh reports it removed.
    pub fn remove_dummy_board(&mut self, index: usize) -> (r: bool)
        ensures
            r <==> index < old(self).daemon_spec().names().len(),
            r ==> final(self).daemon_spec().names() == old(self).daemon_spec().names().update(
                index as int,
                None,
            ),
            !r ==> final(self).daemon_spec().names() == old(self).daemon_spec().names(),
            final(self).board_map() == old(self).board_map(),
    {
        if index < self.daemon.board_count() {
            self.daemon.remove_board(index);
            true
        } else {
            false
        }
    }
}

/// Law: over one refresh cycle the added set joined with the previous
/// set equals the removed set joined with the current set, and both
/// joins are disjoint.
pub proof fn lemma_refresh_reconciliation(
    prev: Set<BoardId>,
    removed: Set<BoardId>,
    added: Set<BoardId>,
    current: Set<BoardId>,
)
    requires
        forall|id: BoardId|
            #![auto]
            current.contains(id) <==> ((prev.contains(id) && !removed.contains(id))
                || added.contains(id)),
        forall|id: BoardId|
            #![auto]
            removed.contains(id) ==> prev.contains(id) && !current.contains(id),
        forall|id: BoardId| #![auto] added.contains(id) ==> !prev.contains(id),
    ensures
        added.union(prev) =~= removed.union(current),
        added.intersect(prev) =~= Set::<BoardId>::empty(),
        removed.intersect(current) =~= Set::<BoardId>::empty(),
{
}

/// Law: a reconciliation against a board list that matches the cached
/// set removes nothing, adds nothing, and leaves the cached set as it
/// was; refresh is idempotent over a stable device set.
pub proof fn lemma_stable_list_idempotent(
    prev: Set<BoardId>,
    listed: Set<BoardId>,
    removed: Set<BoardId>,
    added: Set<BoardId>,
    current: Set<BoardId>,
)
    requires
        forall|id: BoardId|
            #![auto]
            removed.contains(id) <==> (prev.contains(id) && !listed.contains(id)),
        forall|id: BoardId|
            #![auto]
            current.contains(id) <==> ((prev.contains(id) && listed.contains(id))
                || added.contains(id)),
        forall|id: BoardId|
            #![auto]
            added.contains(id) ==> listed.contains(id) && !prev.contains(id),
        forall|id: BoardId| #![auto] prev.contains(id) <==> listed.contains(id),
    ensures
        removed =~= Set::<BoardId>::empty(),
        added =~= Set::<BoardId>::empty(),
        current =~= prev,
{
}

} // verus!

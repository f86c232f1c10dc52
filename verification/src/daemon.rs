//! The daemon abstraction: the uniform, fallible request surface through
//! which board state is read and written, and its in-memory variant.
//! The in-memory dummy keeps a shadow of every setter so that getters
//! reflect prior writes; it stands in for hardware during tests and
//! development. Transports that need I/O (direct hardware access, the
//! privileged subprocess, the stdio server) implement the same trait
//! outside this library, over the wire framing of `codec`.

use std::collections::HashMap;

use vstd::prelude::*;

use crate::color::Rgb;

verus! {

broadcast use vstd::std_specs::hash::group_hash_axioms;

/// Identifies one attached keyboard across a refresh cycle.
#[derive(Clone, Copy, PartialEq, Eq, Structural, Debug, Hash, PartialOrd, Ord)]
pub struct BoardId(pub u64);

/// One operation surface per transport. Every operation is fallible
/// with a human-readable error string; nothing is promised of a general
/// daemon's answers, so callers state what holds whatever came back.
pub trait Daemon {
    /// Re-scan attached devices; may be a no-op for in-memory variants.
    fn refresh(&mut self) -> Result<(), String>;

    /// Currently attached devices, in a stable order.
    fn boards(&self) -> Result<Vec<BoardId>, String>;

    /// Device model identifier.
    fn model(&self, board: BoardId) -> Result<String, String>;

    /// Firmware version.
    fn version(&self, board: BoardId) -> Result<String, String>;

    /// Current scancode at the given layer / electrical matrix cell.
    fn keymap_get(&self, board: BoardId, layer: u8, output: u8, input: u8) -> Result<u16, String>;

    /// Assign a scancode; write-through, no local buffering.
    fn keymap_set(
        &mut self,
        board: BoardId,
        layer: u8,
        output: u8,
        input: u8,
        value: u16,
    ) -> Result<(), String>;

    /// Current physical keypress state, for diagnostics.
    fn matrix_get(&self, board: BoardId) -> Result<Vec<u8>, String>;

    /// Per-LED-group color.
    fn color(&self, board: BoardId, index: u8) -> Result<Rgb, String>;

    fn set_color(&mut self, board: BoardId, index: u8, color: Rgb) -> Result<(), String>;

    fn max_brightness(&self, board: BoardId) -> Result<i32, String>;

    fn brightness(&self, board: BoardId, index: u8) -> Result<i32, String>;

    fn set_brightness(&mut self, board: BoardId, index: u8, brightness: i32) -> Result<
        (),
        String,
    >;

    /// Lighting mode and speed of a layer.
    fn mode(&self, board: BoardId, layer: u8) -> Result<(u8, u8), String>;

    fn set_mode(&mut self, board: BoardId, layer: u8, mode: u8, speed: u8) -> Result<(), String>;

    /// Persist LED state to device NVRAM.
    fn led_save(&self, board: BoardId) -> Result<(), String>;
}

/// Shadow-state key of one keymap cell.
pub open spec fn keymap_cell(board: u64, layer: u8, output: u8, input: u8) -> u128 {
    (board as int * 0x1000000 + layer as int * 0x10000 + output as int * 0x100 + input as int) as u128
}

/// Shadow-state key of one LED index or layer.
pub open spec fn led_cell(board: u64, index: u8) -> u128 {
    (board as int * 0x100 + index as int) as u128
}

/// The in-memory daemon: a list of model names stands for the attached
/// boards (ids 0..n), versions are canned, the matrix reads empty, and
/// every setter writes a shadow that the matching getter reflects.
/// No operation on a valid board ever fails.
pub struct DaemonDummy {
    board_names: Vec<Option<String>>,
    keymap: HashMap<u128, u16>,
    colors: HashMap<u128, Rgb>,
    brightnesses: HashMap<u128, i32>,
    modes: HashMap<u128, (u8, u8)>,
}

impl DaemonDummy {
    /// The model names; board `i` has model `names()[i]`, until the
    /// device is dropped and the slot empties. Ids stay stable.
    pub closed spec fn names(&self) -> Seq<Option<Seq<char>>> {
        self.board_names@.map(
            |i: int, s: Option<String>|
                match s {
                    Some(x) => Some(x@),
                    None => None::<Seq<char>>,
                },
        )
    }

    /// Whether an id denotes one of the dummy's attached boards.
    pub open spec fn valid_board(&self, board: BoardId) -> bool {
        board.0 < self.names().len() && self.names()[board.0 as int] is Some
    }

    /// The keymap shadow.
    pub closed spec fn keymap_view(&self) -> Map<u128, u16> {
        self.keymap@
    }

    /// The color shadow.
    pub closed spec fn colors_view(&self) -> Map<u128, Rgb> {
        self.colors@
    }

    /// The brightness shadow.
    pub closed spec fn brightness_view(&self) -> Map<u128, i32> {
        self.brightnesses@
    }

    /// The mode shadow.
    pub closed spec fn modes_view(&self) -> Map<u128, (u8, u8)> {
        self.modes@
    }

    pub fn new(board_names: Vec<String>) -> (d: DaemonDummy)
        ensures
            d.names().len() == board_names@.len(),
            forall|i: int|
                0 <= i < board_names@.len() ==> d.names()[i] == Some(
                    (#[trigger] board_names@[i])@,
                ),
            d.keymap_view() == Map::<u128, u16>::empty(),
            d.colors_view() == Map::<u128, Rgb>::empty(),
            d.brightness_view() == Map::<u128, i32>::empty(),
            d.modes_view() == Map::<u128, (u8, u8)>::empty(),
    {
        let mut slots: Vec<Option<String>> = Vec::new();
        let n = board_names.len();
        let ghost given = board_names@;
        let mut i: usize = 0;
        while i < n
            invariant
                i <= n,
                n == given.len(),
                board_names@ == given,
                slots@.len() == i,
                forall|k: int| 0 <= k < i ==> slots@[k] == Some((#[trigger] given[k])),
            decreases n - i,
        {
            slots.push(Some(board_names[i].clone()));
            i = i + 1;
        }
        let d = DaemonDummy {
            board_names: slots,
            keymap: HashMap::new(),
            colors: HashMap::new(),
            brightnesses: HashMap::new(),
            modes: HashMap::new(),
        };
        proof {
            assert forall|i2: int| 0 <= i2 < given.len() implies d.names()[i2] == Some(
                (#[trigger] given[i2])@,
            ) by {
                assert(d.names()[i2] == match slots@[i2] {
                    Some(x) => Some(x@),
                    None => None::<Seq<char>>,
                });
                assert(slots@[i2] == Some(given[i2]));
            }
        }
        d
    }

    /// Drop the board at `index`: its slot empties, a later `boards`
    /// call no longer reports it, and other ids stay as they were.
    pub fn remove_board(&mut self, index: usize)
        requires
            index < old(self).names().len(),
        ensures
            final(self).names() == old(self).names().update(index as int, None),
            final(self).keymap_view() == old(self).keymap_view(),
            final(self).colors_view() == old(self).colors_view(),
            final(self).brightness_view() == old(self).brightness_view(),
            final(self).modes_view() == old(self).modes_view(),
    {
        self.board_names.set(index, None);
        proof {
            assert(self.names() =~= old(self).names().update(index as int, None));
        }
    }

    /// How many board slots the dummy has, dropped ones included.
    pub fn board_count(&self) -> (r: usize)
        ensures
            r == self.names().len(),
    {
        self.board_names.len()
    }

    fn check_board(&self, board: BoardId) -> (r: Result<(), String>)
        ensures
            r is Ok <==> self.valid_board(board),
    {
        if board.0 < self.board_names.len() as u64 {
            if self.board_names[board.0 as usize].is_some() {
                return Ok(());
            }
        }
        Err("No such board".to_owned())
    }
}

impl Daemon for DaemonDummy {
    fn refresh(&mut self) -> (r: Result<(), String>)
        ensures
            r is Ok,
            *final(self) == *old(self),
    {
        Ok(())
    }

    fn boards(&self) -> (r: Result<Vec<BoardId>, String>)
        ensures
            r is Ok,
            forall|k: int| 0 <= k < r->Ok_0@.len() ==> self.valid_board(#[trigger] r->Ok_0@[k]),
            forall|i: int|
                0 <= i < self.names().len() && self.names()[i] is Some ==> crate::id_listed(
                    r->Ok_0@,
                    BoardId(i as u64),
                ),
            forall|a: int, b: int|
                0 <= a < b < r->Ok_0@.len() ==> (#[trigger] r->Ok_0@[a]).0 < (
                #[trigger] r->Ok_0@[b]).0,
    {
        let mut ids: Vec<BoardId> = Vec::new();
        let n = self.board_names.len();
        let mut i: usize = 0;
        while i < n
            invariant
                i <= n,
                n == self.names().len(),
                forall|k: int| 0 <= k < ids@.len() ==> self.valid_board(#[trigger] ids@[k]),
                forall|k: int| 0 <= k < ids@.len() ==> (#[trigger] ids@[k]).0 < i,
                forall|j: int|
                    0 <= j < i && self.names()[j] is Some ==> crate::id_listed(
                        ids@,
                        BoardId(j as u64),
                    ),
                forall|a: int, b: int|
                    0 <= a < b < ids@.len() ==> (#[trigger] ids@[a]).0 < (#[trigger] ids@[b]).0,
            decreases n - i,
        {
            if self.board_names[i].is_some() {
                let ghost pre = ids@;
                ids.push(BoardId(i as u64));
                proof {
                    assert forall|j: int|
                        0 <= j < i + 1 && self.names()[j] is Some implies crate::id_listed(
                        ids@,
                        BoardId(j as u64),
                    ) by {
                        if j < i {
                            let k = choose|k: int|
                                0 <= k < pre.len() && #[trigger] pre[k] == BoardId(j as u64);
                            assert(ids@[k] == BoardId(j as u64));
                        } else {
                            assert(ids@[pre.len() as int] == BoardId(j as u64));
                        }
                    }
                }
            }
            i = i + 1;
        }
        Ok(ids)
    }

    fn model(&self, board: BoardId) -> (r: Result<String, String>)
        ensures
            r is Ok <==> self.valid_board(board),
            r is Ok ==> Some(r->Ok_0@) == self.names()[board.0 as int],
    {
        if board.0 < self.board_names.len() as u64 {
            match &self.board_names[board.0 as usize] {
                Some(m) => Ok(m.clone()),
                None => Err("No such board".to_owned()),
            }
        } else {
            Err("No such board".to_owned())
        }
    }

    fn version(&self, board: BoardId) -> (r: Result<String, String>)
        ensures
            r is Ok <==> self.valid_board(board),
            r is Ok ==> r->Ok_0@ == "dummy"@,
    {
        match self.check_board(board) {
            Ok(_) => Ok("dummy".to_owned()),
            Err(e) => Err(e),
        }
    }

    fn keymap_get(&self, board: BoardId, layer: u8, output: u8, input: u8) -> (r: Result<
        u16,
        String,
    >)
        ensures
            r is Ok <==> self.valid_board(board),
            r is Ok ==> r->Ok_0 == ({
                let cell = keymap_cell(board.0, layer, output, input);
                if self.keymap_view().contains_key(cell) {
                    self.keymap_view()[cell]
                } else {
                    0u16
                }
            }),
    {
        match self.check_board(board) {
            Ok(_) => {
                let cell: u128 = board.0 as u128 * 0x1000000 + layer as u128 * 0x10000 + output
                    as u128 * 0x100 + input as u128;
                match self.keymap.get(&cell) {
                    Some(v) => Ok(*v),
                    None => Ok(0),
                }
            },
            Err(e) => Err(e),
        }
    }

    fn keymap_set(
        &mut self,
        board: BoardId,
        layer: u8,
        output: u8,
        input: u8,
        value: u16,
    ) -> (r: Result<(), String>)
        ensures
            r is Ok <==> old(self).valid_board(board),
            r is Ok ==> final(self).keymap_view() == old(self).keymap_view().insert(
                keymap_cell(board.0, layer, output, input),
                value,
            ),
            r is Err ==> *final(self) == *old(self),
            final(self).names() == old(self).names(),
            final(self).colors_view() == old(self).colors_view(),
            final(self).brightness_view() == old(self).brightness_view(),
            final(self).modes_view() == old(self).modes_view(),
    {
        match self.check_board(board) {
            Ok(_) => {
                let cell: u128 = board.0 as u128 * 0x1000000 + layer as u128 * 0x10000 + output
                    as u128 * 0x100 + input as u128;
                self.keymap.insert(cell, value);
                Ok(())
            },
            Err(e) => Err(e),
        }
    }

    fn matrix_get(&self, board: BoardId) -> (r: Result<Vec<u8>, String>)
        ensures
            r is Ok <==> self.valid_board(board),
            r is Ok ==> r->Ok_0@ == Seq::<u8>::empty(),
    {
        match self.check_board(board) {
            Ok(_) => Ok(Vec::new()),
            Err(e) => Err(e),
        }
    }

    fn color(&self, board: BoardId, index: u8) -> (r: Result<Rgb, String>)
        ensures
            r is Ok <==> self.valid_board(board),
            r is Ok ==> r->Ok_0 == ({
                let cell = led_cell(board.0, index);
                if self.colors_view().contains_key(cell) {
                    self.colors_view()[cell]
                } else {
                    Rgb { r: 0, g: 0, b: 0 }
                }
            }),
    {
        match self.check_board(board) {
            Ok(_) => {
                let cell: u128 = board.0 as u128 * 0x100 + index as u128;
                match self.colors.get(&cell) {
                    Some(c) => Ok(*c),
                    None => Ok(Rgb { r: 0, g: 0, b: 0 }),
                }
            },
            Err(e) => Err(e),
        }
    }

    fn set_color(&mut self, board: BoardId, index: u8, color: Rgb) -> (r: Result<(), String>)
        ensures
            r is Ok <==> old(self).valid_board(board),
            r is Ok ==> final(self).colors_view() == old(self).colors_view().insert(
                led_cell(board.0, index),
                color,
            ),
            r is Err ==> *final(self) == *old(self),
            final(self).names() == old(self).names(),
            final(self).keymap_view() == old(self).keymap_view(),
            final(self).brightness_view() == old(self).brightness_view(),
            final(self).modes_view() == old(self).modes_view(),
    {
        match self.check_board(board) {
            Ok(_) => {
                let cell: u128 = board.0 as u128 * 0x100 + index as u128;
                self.colors.insert(cell, color);
                Ok(())
            },
            Err(e) => Err(e),
        }
    }

    fn max_brightness(&self, board: BoardId) -> (r: Result<i32, String>)
        ensures
            r is Ok <==> self.valid_board(board),
            r is Ok ==> r->Ok_0 == 100,
    {
        match self.check_board(board) {
            Ok(_) => Ok(100),
            Err(e) => Err(e),
        }
    }

    fn brightness(&self, board: BoardId, index: u8) -> (r: Result<i32, String>)
        ensures
            r is Ok <==> self.valid_board(board),
            r is Ok ==> r->Ok_0 == ({
                let cell = led_cell(board.0, index);
                if self.brightness_view().contains_key(cell) {
                    self.brightness_view()[cell]
                } else {
                    0i32
                }
            }),
    {
        match self.check_board(board) {
            Ok(_) => {
                let cell: u128 = board.0 as u128 * 0x100 + index as u128;
                match self.brightnesses.get(&cell) {
                    Some(v) => Ok(*v),
                    None => Ok(0),
                }
            },
            Err(e) => Err(e),
        }
    }

    fn set_brightness(&mut self, board: BoardId, index: u8, brightness: i32) -> (r: Result<
        (),
        String,
    >)
        ensures
            r is Ok <==> old(self).valid_board(board),
            r is Ok ==> final(self).brightness_view() == old(self).brightness_view().insert(
                led_cell(board.0, index),
                brightness,
            ),
            r is Err ==> *final(self) == *old(self),
            final(self).names() == old(self).names(),
            final(self).keymap_view() == old(self).keymap_view(),
            final(self).colors_view() == old(self).colors_view(),
            final(self).modes_view() == old(self).modes_view(),
    {
        match self.check_board(board) {
            Ok(_) => {
                let cell: u128 = board.0 as u128 * 0x100 + index as u128;
                self.brightnesses.insert(cell, brightness);
                Ok(())
            },
            Err(e) => Err(e),
        }
    }

    fn mode(&self, board: BoardId, layer: u8) -> (r: Result<(u8, u8), String>)
        ensures
            r is Ok <==> self.valid_board(board),
            r is Ok ==> r->Ok_0 == ({
                let cell = led_cell(board.0, layer);
                if self.modes_view().contains_key(cell) {
                    self.modes_view()[cell]
                } else {
                    (0u8, 0u8)
                }
            }),
    {
        match self.check_board(board) {
            Ok(_) => {
                let cell: u128 = board.0 as u128 * 0x100 + layer as u128;
                match self.modes.get(&cell) {
                    Some(v) => Ok(*v),
                    None => Ok((0, 0)),
                }
            },
            Err(e) => Err(e),
        }
    }

    fn set_mode(&mut self, board: BoardId, layer: u8, mode: u8, speed: u8) -> (r: Result<
        (),
        String,
    >)
        ensures
            r is Ok <==> old(self).valid_board(board),
            r is Ok ==> final(self).modes_view() == old(self).modes_view().insert(
                led_cell(board.0, layer),
                (mode, speed),
            ),
            r is Err ==> *final(self) == *old(self),
            final(self).names() == old(self).names(),
            final(self).keymap_view() == old(self).keymap_view(),
            final(self).colors_view() == old(self).colors_view(),
            final(self).brightness_view() == old(self).brightness_view(),
    {
        match self.check_board(board) {
            Ok(_) => {
                let cell: u128 = board.0 as u128 * 0x100 + layer as u128;
                self.modes.insert(cell, (mode, speed));
                Ok(())
            },
            Err(e) => Err(e),
        }
    }

    fn led_save(&self, board: BoardId) -> (r: Result<(), String>)
        ensures
            r is Ok <==> self.valid_board(board),
    {
        self.check_board(board)
    }
}

/// Law: on the in-memory daemon, writing a keymap cell and reading the
/// same cell back yields the written value; nothing can intervene, as no
/// transport is involved.
pub proof fn lemma_dummy_keymap_set_then_get(
    pre: DaemonDummy,
    post: DaemonDummy,
    board: BoardId,
    layer: u8,
    output: u8,
    input: u8,
    value: u16,
)
    requires
        pre.valid_board(board),
        post.names() == pre.names(),
        post.keymap_view() == pre.keymap_view().insert(
            keymap_cell(board.0, layer, output, input),
            value,
        ),
    ensures
        post.valid_board(board),
        post.keymap_view().contains_key(keymap_cell(board.0, layer, output, input)),
        post.keymap_view()[keymap_cell(board.0, layer, output, input)] == value,
{
}

} // verus!

//! Per-device state assembled on top of a daemon: identity, model and
//! firmware version read at construction, and a per-key scancode cache
//! that setters write through to the daemon. A failed write leaves the
//! cache unchanged.

use std::collections::HashMap;

use vstd::prelude::*;

use crate::daemon::{BoardId, Daemon};

verus! {

broadcast use vstd::std_specs::hash::group_hash_axioms;

/// Cache key of one keymap cell of one board.
pub open spec fn board_cell(layer: u8, output: u8, input: u8) -> u32 {
    (layer as int * 0x10000 + output as int * 0x100 + input as int) as u32
}

/// One attached keyboard: identity and cached per-key state.
pub struct Board {
    board_id: BoardId,
    model: String,
    version: String,
    keymap_cache: HashMap<u32, u16>,
}

impl Board {
    /// The identity this board was created with; never rebound.
    pub closed spec fn spec_id(&self) -> BoardId {
        self.board_id
    }

    /// The model identifier the daemon reported at construction.
    pub closed spec fn spec_model(&self) -> Seq<char> {
        self.model@
    }

    /// The firmware version the daemon reported at construction.
    pub closed spec fn spec_version(&self) -> Seq<char> {
        self.version@
    }

    /// The scancodes this board has cached.
    pub closed spec fn cache_view(&self) -> Map<u32, u16> {
        self.keymap_cache@
    }

    /// Assemble a board from the daemon's two answers: the identity is
    /// fixed, the model and version are exactly the given strings, and
    /// the cache starts empty.
    pub fn from_parts(board_id: BoardId, model: String, version: String) -> (b: Board)
        ensures
            b.spec_id() == board_id,
            b.spec_model() == model@,
            b.spec_version() == version@,
            b.cache_view() == Map::<u32, u16>::empty(),
    {
        Board { board_id, model, version, keymap_cache: HashMap::new() }
    }

    /// Create a board by reading its model and version from the daemon
    /// and handing them to `from_parts`. Fails exactly when one of the
    /// two daemon reads fails, e.g. when the device disappeared between
    /// a refresh and this call.
    pub fn new<D: Daemon>(daemon: &D, board_id: BoardId) -> (r: Result<Board, String>)
        ensures
            r is Ok ==> r->Ok_0.spec_id() == board_id,
            r is Ok ==> r->Ok_0.cache_view() == Map::<u32, u16>::empty(),
    {
        let model = match daemon.model(board_id) {
            Ok(m) => m,
            Err(e) => {
                return Err(e);
            },
        };
        let version = match daemon.version(board_id) {
            Ok(v) => v,
            Err(e) => {
                return Err(e);
            },
        };
        Ok(Board::from_parts(board_id, model, version))
    }

    pub fn board(&self) -> (r: BoardId)
        ensures
            r == self.spec_id(),
    {
        self.board_id
    }

    pub fn model(&self) -> (r: &String)
        ensures
            r@ == self.spec_model(),
    {
        &self.model
    }

    pub fn version(&self) -> (r: &String)
        ensures
            r@ == self.spec_version(),
    {
        &self.version
    }

    /// The cached scancode of a cell, if one was read or written.
    pub fn keymap_cached(&self, layer: u8, output: u8, input: u8) -> (r: Option<u16>)
        ensures
            r == if self.cache_view().contains_key(board_cell(layer, output, input)) {
                Some(self.cache_view()[board_cell(layer, output, input)])
            } else {
                None::<u16>
            },
    {
        let cell: u32 = layer as u32 * 0x10000 + output as u32 * 0x100 + input as u32;
        match self.keymap_cache.get(&cell) {
            Some(v) => Some(*v),
            None => None,
        }
    }

    /// Read a scancode from the daemon and cache it on success; the
    /// cache is unchanged when the daemon fails.
    pub fn keymap_get<D: Daemon>(&mut self, daemon: &D, layer: u8, output: u8, input: u8) -> (r:
        Result<u16, String>)
        ensures
            r is Ok ==> final(self).cache_view() == old(self).cache_view().insert(
                board_cell(layer, output, input),
                r->Ok_0,
            ),
            r is Err ==> final(self).cache_view() == old(self).cache_view(),
            final(self).spec_id() == old(self).spec_id(),
            final(self).spec_model() == old(self).spec_model(),
            final(self).spec_version() == old(self).spec_version(),
    {
        let value = match daemon.keymap_get(self.board_id, layer, output, input) {
            Ok(v) => v,
            Err(e) => {
                return Err(e);
            },
        };
        let cell: u32 = layer as u32 * 0x10000 + output as u32 * 0x100 + input as u32;
        self.keymap_cache.insert(cell, value);
        Ok(value)
    }

    /// Write a scancode through to the daemon and cache it on success;
    /// the cache is unchanged when the daemon fails.
    pub fn keymap_set<D: Daemon>(
        &mut self,
        daemon: &mut D,
        layer: u8,
        output: u8,
        input: u8,
        value: u16,
    ) -> (r: Result<(), String>)
        ensures
            r is Ok ==> final(self).cache_view() == old(self).cache_view().insert(
                board_cell(layer, output, input),
                value,
            ),
            r is Err ==> final(self).cache_view() == old(self).cache_view(),
            final(self).spec_id() == old(self).spec_id(),
            final(self).spec_model() == old(self).spec_model(),
            final(self).spec_version() == old(self).spec_version(),
    {
        match daemon.keymap_set(self.board_id, layer, output, input, value) {
            Ok(_) => {},
            Err(e) => {
                return Err(e);
            },
        }
        let cell: u32 = layer as u32 * 0x10000 + output as u32 * 0x100 + input as u32;
        self.keymap_cache.insert(cell, value);
        Ok(())
    }
}

} // verus!

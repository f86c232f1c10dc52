//! The physical-layout description: a metadata object plus rows of keys,
//! decoded through a stateful cursor. This module holds the data model,
//! the mathematical cursor machine, the executable decoder from entry
//! lists, and the laws that hold of every decoded layout.

use vstd::prelude::*;

use crate::color::Rgb;
use crate::rect::{Rect, UNIT};

verus! {

/// Largest magnitude, in milli key-units, a single cursor coordinate or
/// size taken from a layout file may have.
pub const MAX_COORD: i64 = 1_000_000_000;

/// Largest number of row items (keys and cursor mutations together) a
/// layout may hold.
pub const MAX_ITEMS: usize = 1_000_000;

/// Largest number of rows; logical row indices must fit in a byte.
pub const MAX_ROWS: usize = 256;

/// Largest number of keys in one row; logical column indices must fit
/// in a byte.
pub const MAX_COLS: usize = 256;

/// Why a layout description was rejected.
#[derive(Clone, Copy, PartialEq, Eq, Structural, Debug)]
pub enum ParseError {
    /// The text is not ASCII.
    NotAscii,
    /// The text does not follow the layout grammar.
    Syntax,
    /// A color string is not `#` followed by six hex digits.
    BadColor,
    /// A number lies outside the supported range or precision.
    NumberRange,
    /// No metadata object was seen.
    NoMeta,
    /// The layout exceeds a size limit (rows, columns, or items).
    TooLarge,
}

/// Layout metadata: a human-readable name and its author.
#[derive(Debug)]
pub struct PhysicalLayoutMeta {
    pub name: String,
    pub author: String,
}

/// One key of a physical layout, immutable after parse.
#[derive(Debug)]
pub struct PhysicalLayoutKey {
    /// Logical (row, column): the electrical matrix coordinates.
    pub logical: (u8, u8),
    /// Placement in milli key-units.
    pub physical: Rect,
    /// Well-known key identifier, e.g. `ESC`.
    pub physical_name: String,
    pub background_color: Rgb,
}

/// Metadata plus the ordered keys.
#[derive(Debug)]
pub struct PhysicalLayout {
    pub meta: PhysicalLayoutMeta,
    pub keys: Vec<PhysicalLayoutKey>,
}

/// A cursor mutation taken from a layout row: relative moves, one-shot
/// width and height, and a sticky background color.
#[derive(Clone, Copy, PartialEq, Eq, Structural, Debug)]
pub struct CursorMutation {
    pub dx: i64,
    pub dy: i64,
    pub w: Option<i64>,
    pub h: Option<i64>,
    pub color: Option<Rgb>,
}

/// One item of a layout row: a named key, or a cursor mutation.
pub enum RowItem {
    Key(String),
    Mutation(CursorMutation),
}

/// One top-level entry of a layout description.
pub enum LayoutEntry {
    Meta { name: String, author: String },
    Row(Vec<RowItem>),
}

/// Mathematical image of a key.
pub ghost struct KeyView {
    pub row: int,
    pub col: int,
    pub x: int,
    pub y: int,
    pub w: int,
    pub h: int,
    pub name: Seq<char>,
    pub color: Rgb,
}

/// Mathematical image of a cursor mutation.
pub ghost struct MutationView {
    pub dx: int,
    pub dy: int,
    pub w: Option<int>,
    pub h: Option<int>,
    pub color: Option<Rgb>,
}

/// Mathematical image of a row item.
pub ghost enum RowItemView {
    Key(Seq<char>),
    Mutation(MutationView),
}

/// Mathematical image of a top-level entry.
pub ghost enum EntryView {
    Meta(Seq<char>, Seq<char>),
    Row(Seq<RowItemView>),
}

impl View for PhysicalLayoutKey {
    type V = KeyView;

    open spec fn view(&self) -> KeyView {
        KeyView {
            row: self.logical.0 as int,
            col: self.logical.1 as int,
            x: self.physical.x as int,
            y: self.physical.y as int,
            w: self.physical.w as int,
            h: self.physical.h as int,
            name: self.physical_name@,
            color: self.background_color,
        }
    }
}

impl View for CursorMutation {
    type V = MutationView;

    open spec fn view(&self) -> MutationView {
        MutationView {
            dx: self.dx as int,
            dy: self.dy as int,
            w: match self.w {
                Some(w) => Some(w as int),
                None => None,
            },
            h: match self.h {
                Some(h) => Some(h as int),
                None => None,
            },
            color: self.color,
        }
    }
}

impl View for RowItem {
    type V = RowItemView;

    open spec fn view(&self) -> RowItemView {
        match self {
            RowItem::Key(name) => RowItemView::Key(name@),
            RowItem::Mutation(m) => RowItemView::Mutation(m@),
        }
    }
}

impl View for LayoutEntry {
    type V = EntryView;

    open spec fn view(&self) -> EntryView {
        match self {
            LayoutEntry::Meta { name, author } => EntryView::Meta(name@, author@),
            LayoutEntry::Row(items) => EntryView::Row(items@.map(|i: int, it: RowItem| it@)),
        }
    }
}

/// The parse cursor: position, one-shot size, sticky color.
pub ghost struct Cursor {
    pub x: int,
    pub y: int,
    pub w: int,
    pub h: int,
    pub color: Rgb,
}

/// Initial cursor: origin, one-unit size, the default `#cccccc` color.
pub open spec fn init_cursor() -> Cursor {
    Cursor { x: 0, y: 0, w: UNIT as int, h: UNIT as int, color: Rgb { r: 0xcc, g: 0xcc, b: 0xcc } }
}

/// Cursor after one mutation: `x` advances, `y` decreases, width and
/// height are overwritten when present, the color when present.
pub open spec fn apply_mutation(c: Cursor, m: MutationView) -> Cursor {
    Cursor {
        x: c.x + m.dx,
        y: c.y - m.dy,
        w: match m.w {
            Some(w) => w,
            None => c.w,
        },
        h: match m.h {
            Some(h) => h,
            None => c.h,
        },
        color: match m.color {
            Some(col) => col,
            None => c.color,
        },
    }
}

/// State while a row is decoded: the cursor, the next column, and every
/// key emitted so far (across all rows).
pub ghost struct RowState {
    pub cursor: Cursor,
    pub col: int,
    pub keys: Seq<KeyView>,
}

/// One row item: a mutation moves the cursor; a key is emitted at the
/// cursor, then `x` advances by the width and the size resets to one unit.
pub open spec fn run_item(row: int, st: RowState, item: RowItemView) -> RowState {
    match item {
        RowItemView::Mutation(m) => RowState {
            cursor: apply_mutation(st.cursor, m),
            col: st.col,
            keys: st.keys,
        },
        RowItemView::Key(name) => RowState {
            cursor: Cursor {
                x: st.cursor.x + st.cursor.w,
                y: st.cursor.y,
                w: UNIT as int,
                h: UNIT as int,
                color: st.cursor.color,
            },
            col: st.col + 1,
            keys: st.keys.push(
                KeyView {
                    row,
                    col: st.col,
                    x: st.cursor.x,
                    y: st.cursor.y,
                    w: st.cursor.w,
                    h: st.cursor.h,
                    name,
                    color: st.cursor.color,
                },
            ),
        },
    }
}

pub open spec fn run_row(row: int, st: RowState, items: Seq<RowItemView>) -> RowState
    decreases items.len(),
{
    if items.len() == 0 {
        st
    } else {
        run_row(row, run_item(row, st, items[0]), items.skip(1))
    }
}

/// State while a whole description is decoded.
pub ghost struct LayoutState {
    pub cursor: Cursor,
    pub row: int,
    pub keys: Seq<KeyView>,
    pub meta: Option<(Seq<char>, Seq<char>)>,
}

pub open spec fn init_layout_state() -> LayoutState {
    LayoutState { cursor: init_cursor(), row: 0, keys: Seq::empty(), meta: None }
}

/// One entry: a metadata object records name and author (the last one
/// wins); a row runs its items, then `x` returns to 0, `y` drops one
/// unit, and the row index advances.
pub open spec fn run_entry(st: LayoutState, e: EntryView) -> LayoutState {
    match e {
        EntryView::Meta(name, author) => LayoutState {
            cursor: st.cursor,
            row: st.row,
            keys: st.keys,
            meta: Some((name, author)),
        },
        EntryView::Row(items) => {
            let r = run_row(st.row, RowState { cursor: st.cursor, col: 0, keys: st.keys }, items);
            LayoutState {
                cursor: Cursor {
                    x: 0,
                    y: r.cursor.y - UNIT as int,
                    w: r.cursor.w,
                    h: r.cursor.h,
                    color: r.cursor.color,
                },
                row: st.row + 1,
                keys: r.keys,
                meta: st.meta,
            }
        },
    }
}

pub open spec fn run_entries(st: LayoutState, entries: Seq<EntryView>) -> LayoutState
    decreases entries.len(),
{
    if entries.len() == 0 {
        st
    } else {
        run_entries(run_entry(st, entries[0]), entries.skip(1))
    }
}

/// The full run of the cursor machine over a description.
pub open spec fn layout_run(entries: Seq<EntryView>) -> LayoutState {
    run_entries(init_layout_state(), entries)
}

/// Views of a list of entries.
pub open spec fn entries_view(entries: Seq<LayoutEntry>) -> Seq<EntryView> {
    entries.map(|i: int, e: LayoutEntry| e@)
}

/// Mathematical image of a decoded layout.
pub ghost struct LayoutView {
    pub name: Seq<char>,
    pub author: Seq<char>,
    pub keys: Seq<KeyView>,
}

impl View for PhysicalLayout {
    type V = LayoutView;

    open spec fn view(&self) -> LayoutView {
        LayoutView {
            name: self.meta.name@,
            author: self.meta.author@,
            keys: self.keys@.map(|i: int, k: PhysicalLayoutKey| k@),
        }
    }
}

/// Every coordinate a mutation carries stays within `MAX_COORD`.
pub open spec fn mutation_in_range(m: MutationView) -> bool {
    &&& -(MAX_COORD as int) <= m.dx <= MAX_COORD as int
    &&& -(MAX_COORD as int) <= m.dy <= MAX_COORD as int
    &&& (m.w is Some ==> -(MAX_COORD as int) <= m.w->0 <= MAX_COORD as int)
    &&& (m.h is Some ==> -(MAX_COORD as int) <= m.h->0 <= MAX_COORD as int)
}

pub open spec fn item_in_range(it: RowItemView) -> bool {
    match it {
        RowItemView::Key(_) => true,
        RowItemView::Mutation(m) => mutation_in_range(m),
    }
}

/// How many keys a row emits.
pub open spec fn row_key_count(items: Seq<RowItemView>) -> int
    decreases items.len(),
{
    if items.len() == 0 {
        0
    } else {
        row_key_count(items.drop_last()) + (if items.last() is Key {
            1int
        } else {
            0int
        })
    }
}

/// How many row items an entry holds.
pub open spec fn entry_items(e: EntryView) -> int {
    match e {
        EntryView::Meta(_, _) => 0,
        EntryView::Row(items) => items.len() as int,
    }
}

pub open spec fn total_items(entries: Seq<EntryView>) -> int
    decreases entries.len(),
{
    if entries.len() == 0 {
        0
    } else {
        total_items(entries.drop_last()) + entry_items(entries.last())
    }
}

pub open spec fn row_entry_count(entries: Seq<EntryView>) -> int
    decreases entries.len(),
{
    if entries.len() == 0 {
        0
    } else {
        row_entry_count(entries.drop_last()) + (if entries.last() is Row {
            1int
        } else {
            0int
        })
    }
}

pub open spec fn entry_ok(e: EntryView) -> bool {
    match e {
        EntryView::Meta(_, _) => true,
        EntryView::Row(items) => {
            &&& row_key_count(items) <= MAX_COLS as int
            &&& forall|j: int| 0 <= j < items.len() ==> item_in_range(#[trigger] items[j])
        },
    }
}

/// The size limits a description must meet so that the decoder can
/// mirror the cursor machine in machine integers.
pub open spec fn within_limits(entries: Seq<EntryView>) -> bool {
    &&& total_items(entries) <= MAX_ITEMS as int
    &&& row_entry_count(entries) <= MAX_ROWS as int
    &&& forall|i: int| 0 <= i < entries.len() ==> entry_ok(#[trigger] entries[i])
}

proof fn lemma_row_key_count_prefix(items: Seq<RowItemView>, j: int)
    requires
        0 <= j <= items.len(),
    ensures
        0 <= row_key_count(items.take(j)) <= row_key_count(items),
    decreases items.len(),
{
    if items.len() == 0 {
        assert(items.take(j) =~= items);
    } else if j == items.len() {
        assert(items.take(j) =~= items);
        lemma_row_key_count_prefix(items.drop_last(), items.len() - 1);
        assert(items.drop_last().take(items.len() - 1) =~= items.drop_last());
    } else {
        assert(items.drop_last().take(j) =~= items.take(j));
        lemma_row_key_count_prefix(items.drop_last(), j);
    }
}

proof fn lemma_row_key_count_step(items: Seq<RowItemView>, j: int)
    requires
        0 <= j < items.len(),
    ensures
        row_key_count(items.take(j + 1)) == row_key_count(items.take(j)) + (if items[j] is Key {
            1int
        } else {
            0int
        }),
{
    assert(items.take(j + 1).drop_last() =~= items.take(j));
    assert(items.take(j + 1).last() == items[j]);
}

proof fn lemma_total_items_prefix(entries: Seq<EntryView>, j: int)
    requires
        0 <= j <= entries.len(),
    ensures
        0 <= total_items(entries.take(j)) <= total_items(entries),
        0 <= row_entry_count(entries.take(j)) <= row_entry_count(entries),
    decreases entries.len(),
{
    if entries.len() == 0 {
        assert(entries.take(j) =~= entries);
    } else if j == entries.len() {
        assert(entries.take(j) =~= entries);
        lemma_total_items_prefix(entries.drop_last(), entries.len() - 1);
        assert(entries.drop_last().take(entries.len() - 1) =~= entries.drop_last());
    } else {
        assert(entries.drop_last().take(j) =~= entries.take(j));
        lemma_total_items_prefix(entries.drop_last(), j);
    }
}

proof fn lemma_total_items_step(entries: Seq<EntryView>, j: int)
    requires
        0 <= j < entries.len(),
    ensures
        total_items(entries.take(j + 1)) == total_items(entries.take(j)) + entry_items(entries[j]),
        row_entry_count(entries.take(j + 1)) == row_entry_count(entries.take(j)) + (
        if entries[j] is Row {
            1int
        } else {
            0int
        }),
{
    assert(entries.take(j + 1).drop_last() =~= entries.take(j));
    assert(entries.take(j + 1).last() == entries[j]);
}

/// View of the optional metadata the decoder has seen.
pub open spec fn meta_view(m: Option<PhysicalLayoutMeta>) -> Option<(Seq<char>, Seq<char>)> {
    match m {
        Some(meta) => Some((meta.name@, meta.author@)),
        None => None,
    }
}

impl PhysicalLayout {
    /// Decode a list of entries by running the parse cursor over them.
    /// Succeeds exactly on descriptions that carry a metadata object and
    /// stay within the size limits, and then returns precisely what the
    /// cursor machine computes.
    #[verifier::loop_isolation(false)]
    #[verifier::rlimit(60)]
    pub fn from_entries(entries: &Vec<LayoutEntry>) -> (r: Result<PhysicalLayout, ParseError>)
        ensures
            ({
                let ev = entries_view(entries@);
                &&& (r is Ok <==> within_limits(ev) && layout_run(ev).meta is Some)
                &&& (r is Ok ==> r->Ok_0@.keys == layout_run(ev).keys && layout_run(ev).meta
                    == Some((r->Ok_0@.name, r->Ok_0@.author)))
                &&& ((r is Err && r->Err_0 == ParseError::TooLarge) <==> !within_limits(ev))
                &&& ((r is Err && r->Err_0 == ParseError::NoMeta) <==> within_limits(ev)
                    && layout_run(ev).meta is None)
            }),
    {
        let ghost ev = entries_view(entries@);
        let mut keys: Vec<PhysicalLayoutKey> = Vec::new();
        let mut meta: Option<PhysicalLayoutMeta> = None;
        let mut x: i64 = 0;
        let mut y: i64 = 0;
        let mut w: i64 = UNIT;
        let mut h: i64 = UNIT;
        let mut bg = Rgb { r: 0xcc, g: 0xcc, b: 0xcc };
        let mut row_i: usize = 0;
        let mut items_used: usize = 0;
        let mut e_i: usize = 0;
        proof {
            assert(ev.skip(0) =~= ev);
            assert(ev.take(0) =~= Seq::<EntryView>::empty());
            assert(keys@.map(|i: int, k: PhysicalLayoutKey| k@) =~= Seq::<KeyView>::empty());
        }
        while e_i < entries.len()
            invariant
                e_i <= entries@.len(),
                x == 0,
                -(MAX_COORD as int) <= w as int <= MAX_COORD as int,
                -(MAX_COORD as int) <= h as int <= MAX_COORD as int,
                items_used as int == total_items(ev.take(e_i as int)),
                items_used <= MAX_ITEMS,
                row_i as int == row_entry_count(ev.take(e_i as int)),
                row_i <= MAX_ROWS,
                -(items_used as int * MAX_COORD as int + row_i as int * UNIT as int) <= y as int
                    <= items_used as int * MAX_COORD as int + row_i as int * UNIT as int,
                forall|i: int| 0 <= i < e_i ==> entry_ok(#[trigger] ev[i]),
                layout_run(ev) == run_entries(
                    (LayoutState {
                        cursor: (Cursor {
                            x: x as int,
                            y: y as int,
                            w: w as int,
                            h: h as int,
                            color: bg,
                        }),
                        row: row_i as int,
                        keys: keys@.map(|i: int, k: PhysicalLayoutKey| k@),
                        meta: meta_view(meta),
                    }),
                    ev.skip(e_i as int),
                ),
            decreases entries@.len() - e_i,
        {
            proof {
                assert(ev.skip(e_i as int)[0] == ev[e_i as int]);
                assert(ev.skip(e_i as int).skip(1) =~= ev.skip(e_i as int + 1));
                assert(ev[e_i as int] == entries@[e_i as int]@);
            }
            match &entries[e_i] {
                LayoutEntry::Meta { name, author } => {
                    meta = Some(PhysicalLayoutMeta { name: name.clone(), author: author.clone() });
                    proof {
                        lemma_total_items_step(ev, e_i as int);
                    }
                },
                LayoutEntry::Row(items) => {
                    if row_i == MAX_ROWS {
                        proof {
                            lemma_total_items_step(ev, e_i as int);
                            lemma_total_items_prefix(ev, e_i as int + 1);
                        }
                        return Err(ParseError::TooLarge);
                    }
                    if items.len() > MAX_ITEMS - items_used {
                        proof {
                            lemma_total_items_step(ev, e_i as int);
                            lemma_total_items_prefix(ev, e_i as int + 1);
                        }
                        return Err(ParseError::TooLarge);
                    }
                    let ghost items_v = items@.map(|i: int, it: RowItem| it@);
                    let ghost base = items_used as int;
                    let ghost rst0 = RowState {
                        cursor: Cursor {
                            x: x as int,
                            y: y as int,
                            w: w as int,
                            h: h as int,
                            color: bg,
                        },
                        col: 0,
                        keys: keys@.map(|i: int, k: PhysicalLayoutKey| k@),
                    };
                    let mut col_i: usize = 0;
                    let mut j: usize = 0;
                    proof {
                        assert(items_v.skip(0) =~= items_v);
                        assert(items_v.take(0) =~= Seq::<RowItemView>::empty());
                    }
                    while j < items.len()
                        invariant
                            j <= items@.len(),
                            items_used as int == base + j,
                            base + items@.len() <= MAX_ITEMS as int,
                            col_i as int == row_key_count(items_v.take(j as int)),
                            col_i <= MAX_COLS,
                            forall|j2: int| 0 <= j2 < j ==> item_in_range(#[trigger] items_v[j2]),
                            -(items_used as int * MAX_COORD as int) <= x as int <= items_used
                                as int * MAX_COORD as int,
                            -(items_used as int * MAX_COORD as int + row_i as int * UNIT as int)
                                <= y as int <= items_used as int * MAX_COORD as int + row_i
                                as int * UNIT as int,
                            -(MAX_COORD as int) <= w as int <= MAX_COORD as int,
                            -(MAX_COORD as int) <= h as int <= MAX_COORD as int,
                            run_row(row_i as int, rst0, items_v) == run_row(
                                row_i as int,
                                (RowState {
                                    cursor: (Cursor {
                                        x: x as int,
                                        y: y as int,
                                        w: w as int,
                                        h: h as int,
                                        color: bg,
                                    }),
                                    col: col_i as int,
                                    keys: keys@.map(|i: int, k: PhysicalLayoutKey| k@),
                                }),
                                items_v.skip(j as int),
                            ),
                        decreases items@.len() - j,
                    {
                        proof {
                            assert(items_v.skip(j as int)[0] == items_v[j as int]);
                            assert(items_v.skip(j as int).skip(1) =~= items_v.skip(j as int + 1));
                            assert(items_v[j as int] == items@[j as int]@);
                        }
                        items_used = items_used + 1;
                        match &items[j] {
                            RowItem::Mutation(m) => {
                                if m.dx < -MAX_COORD || m.dx > MAX_COORD || m.dy < -MAX_COORD
                                    || m.dy > MAX_COORD {
                                    return Err(ParseError::TooLarge);
                                }
                                if let Some(mw) = m.w {
                                    if mw < -MAX_COORD || mw > MAX_COORD {
                                        return Err(ParseError::TooLarge);
                                    }
                                    w = mw;
                                }
                                if let Some(mh) = m.h {
                                    if mh < -MAX_COORD || mh > MAX_COORD {
                                        return Err(ParseError::TooLarge);
                                    }
                                    h = mh;
                                }
                                if let Some(c) = m.color {
                                    bg = c;
                                }
                                x = x + m.dx;
                                y = y - m.dy;
                                proof {
                                    lemma_row_key_count_step(items_v, j as int);
                                }
                            },
                            RowItem::Key(name) => {
                                if col_i == MAX_COLS {
                                    proof {
                                        lemma_row_key_count_step(items_v, j as int);
                                        lemma_row_key_count_prefix(items_v, j as int + 1);
                                    }
                                    return Err(ParseError::TooLarge);
                                }
                                let ghost prev_keys = keys@;
                                keys.push(
                                    PhysicalLayoutKey {
                                        logical: (row_i as u8, col_i as u8),
                                        physical: Rect { x, y, w, h },
                                        physical_name: name.clone(),
                                        background_color: bg,
                                    },
                                );
                                proof {
                                    assert(keys@.map(|i: int, k: PhysicalLayoutKey| k@)
                                        =~= prev_keys.map(|i: int, k: PhysicalLayoutKey| k@).push(
                                        keys@.last()@,
                                    ));
                                    lemma_row_key_count_step(items_v, j as int);
                                }
                                x = x + w;
                                w = UNIT;
                                h = UNIT;
                                col_i = col_i + 1;
                            },
                        }
                        j = j + 1;
                    }
                    proof {
                        assert(items_v.skip(j as int) =~= Seq::<RowItemView>::empty());
                        lemma_total_items_step(ev, e_i as int);
                        assert(items_v.take(j as int) =~= items_v);
                    }
                    x = 0;
                    y = y - UNIT;
                    row_i = row_i + 1;
                },
            }
            e_i = e_i + 1;
        }
        proof {
            assert(ev.take(e_i as int) =~= ev);
            assert(ev.skip(e_i as int) =~= Seq::<EntryView>::empty());
        }
        match meta {
            Some(m) => Ok(PhysicalLayout { meta: m, keys }),
            None => Err(ParseError::NoMeta),
        }
    }
}

/// How many of the first `i` keys lie in row `row`.
pub open spec fn row_count_prefix(keys: Seq<KeyView>, i: int, row: int) -> int
    decreases i,
{
    if i <= 0 {
        0
    } else {
        row_count_prefix(keys, i - 1, row) + (if keys[i - 1].row == row {
            1int
        } else {
            0int
        })
    }
}

/// A key with logical coordinates (r, c) is the (c+1)-th key emitted in
/// row r: its column equals the number of earlier keys of the same row.
pub open spec fn keys_in_order(keys: Seq<KeyView>) -> bool {
    forall|i: int|
        0 <= i < keys.len() ==> (#[trigger] keys[i]).col == row_count_prefix(keys, i, keys[i].row)
}

proof fn lemma_row_count_prefix_push(keys: Seq<KeyView>, k: KeyView, i: int, row: int)
    requires
        0 <= i <= keys.len(),
    ensures
        row_count_prefix(keys.push(k), i, row) == row_count_prefix(keys, i, row),
    decreases i,
{
    if i > 0 {
        lemma_row_count_prefix_push(keys, k, i - 1, row);
    }
}

proof fn lemma_row_count_prefix_none(keys: Seq<KeyView>, i: int, row: int)
    requires
        0 <= i <= keys.len(),
        forall|j: int| 0 <= j < keys.len() ==> (#[trigger] keys[j]).row != row,
    ensures
        row_count_prefix(keys, i, row) == 0,
    decreases i,
{
    if i > 0 {
        lemma_row_count_prefix_none(keys, i - 1, row);
    }
}

proof fn lemma_run_row_in_order(row: int, st: RowState, items: Seq<RowItemView>)
    requires
        keys_in_order(st.keys),
        forall|i: int| 0 <= i < st.keys.len() ==> (#[trigger] st.keys[i]).row <= row,
        st.col == row_count_prefix(st.keys, st.keys.len() as int, row),
    ensures
        ({
            let r = run_row(row, st, items);
            &&& keys_in_order(r.keys)
            &&& forall|i: int| 0 <= i < r.keys.len() ==> (#[trigger] r.keys[i]).row <= row
            &&& r.col == row_count_prefix(r.keys, r.keys.len() as int, row)
        }),
    decreases items.len(),
{
    if items.len() > 0 {
        let st1 = run_item(row, st, items[0]);
        match items[0] {
            RowItemView::Mutation(_) => {},
            RowItemView::Key(name) => {
                let k = st.keys.push(st1.keys.last()).last();
                let nk = st1.keys.last();
                assert forall|i: int| 0 <= i < st1.keys.len() implies (#[trigger] st1.keys[i]).col
                    == row_count_prefix(st1.keys, i, st1.keys[i].row) by {
                    if i < st.keys.len() {
                        lemma_row_count_prefix_push(st.keys, nk, i, st.keys[i].row);
                    } else {
                        lemma_row_count_prefix_push(st.keys, nk, i, row);
                    }
                }
                lemma_row_count_prefix_push(st.keys, nk, st.keys.len() as int, row);
            },
        }
        lemma_run_row_in_order(row, st1, items.skip(1));
    }
}

proof fn lemma_run_entries_in_order(st: LayoutState, entries: Seq<EntryView>)
    requires
        keys_in_order(st.keys),
        forall|i: int| 0 <= i < st.keys.len() ==> (#[trigger] st.keys[i]).row < st.row,
    ensures
        ({
            let r = run_entries(st, entries);
            &&& keys_in_order(r.keys)
            &&& forall|i: int| 0 <= i < r.keys.len() ==> (#[trigger] r.keys[i]).row < r.row
        }),
    decreases entries.len(),
{
    if entries.len() > 0 {
        let st1 = run_entry(st, entries[0]);
        match entries[0] {
            EntryView::Meta(_, _) => {},
            EntryView::Row(items) => {
                let rst = RowState { cursor: st.cursor, col: 0, keys: st.keys };
                lemma_row_count_prefix_none(st.keys, st.keys.len() as int, st.row);
                lemma_run_row_in_order(st.row, rst, items);
            },
        }
        lemma_run_entries_in_order(st1, entries.skip(1));
    }
}

/// Law: in every layout the cursor machine produces, each key's logical
/// column says how many keys of its row were emitted before it.
pub proof fn lemma_layout_keys_in_order(entries: Seq<EntryView>)
    ensures
        keys_in_order(layout_run(entries).keys),
{
    lemma_run_entries_in_order(init_layout_state(), entries);
}

/// Cursor after a whole sequence of mutations.
pub open spec fn apply_mutations(c: Cursor, ms: Seq<MutationView>) -> Cursor
    decreases ms.len(),
{
    if ms.len() == 0 {
        c
    } else {
        apply_mutations(apply_mutation(c, ms[0]), ms.skip(1))
    }
}

/// The mutation that undoes another one's relative moves. Width, height
/// and color have no inverse: they are one-shot or sticky overwrites.
pub open spec fn invert_mutation(m: MutationView) -> MutationView {
    MutationView { dx: -m.dx, dy: -m.dy, w: None, h: None, color: None }
}

/// The reversed sequence of inverted mutations.
pub open spec fn inverted_reversed(ms: Seq<MutationView>) -> Seq<MutationView>
    decreases ms.len(),
{
    if ms.len() == 0 {
        Seq::empty()
    } else {
        inverted_reversed(ms.skip(1)).push(invert_mutation(ms[0]))
    }
}

proof fn lemma_apply_mutations_push(c: Cursor, ms: Seq<MutationView>, m: MutationView)
    ensures
        apply_mutations(c, ms.push(m)) == apply_mutation(apply_mutations(c, ms), m),
    decreases ms.len(),
{
    if ms.len() == 0 {
        assert(ms.push(m)[0] == m);
        assert(ms.push(m).skip(1) =~= Seq::<MutationView>::empty());
        assert(apply_mutations(c, ms.push(m)) == apply_mutations(
            apply_mutation(c, m),
            ms.push(m).skip(1),
        ));
        assert(apply_mutations(apply_mutation(c, m), Seq::<MutationView>::empty())
            == apply_mutation(c, m));
    } else {
        assert(ms.push(m)[0] == ms[0]);
        assert(ms.push(m).skip(1) =~= ms.skip(1).push(m));
        assert(apply_mutations(c, ms.push(m)) == apply_mutations(
            apply_mutation(c, ms[0]),
            ms.skip(1).push(m),
        ));
        lemma_apply_mutations_push(apply_mutation(c, ms[0]), ms.skip(1), m);
        assert(apply_mutations(c, ms) == apply_mutations(apply_mutation(c, ms[0]), ms.skip(1)));
    }
}

/// Law: applying a mutation sequence to the cursor and then the reversed
/// sequence of its inverses returns the cursor to its prior position.
/// Width, height and color are excluded: they are one-shot overwrites.
pub proof fn lemma_cursor_round_trip(c: Cursor, ms: Seq<MutationView>)
    ensures
        apply_mutations(apply_mutations(c, ms), inverted_reversed(ms)).x == c.x,
        apply_mutations(apply_mutations(c, ms), inverted_reversed(ms)).y == c.y,
    decreases ms.len(),
{
    if ms.len() > 0 {
        let c1 = apply_mutation(c, ms[0]);
        lemma_cursor_round_trip(c1, ms.skip(1));
        let mid = apply_mutations(c1, ms.skip(1));
        lemma_apply_mutations_push(mid, inverted_reversed(ms.skip(1)), invert_mutation(ms[0]));
    }
}

} // verus!

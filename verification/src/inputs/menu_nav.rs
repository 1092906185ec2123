//! Moving the menu focus over a grid of buttons and turning presses,
//! clicks and hovers into focus changes and pending button presses.
use vstd::prelude::*;

use crate::inputs::{Action, ActionEvent, MenuAction};
use crate::menu::layout::{in_grid, spec_coords, ButtonEntry, MenuLayout, PendingButtonPress};

verus! {

broadcast use vstd::seq_lib::group_seq_properties;

/// The focused cell of the menu grid.
#[derive(Debug, Clone, Copy, PartialEq, Eq, Structural, Default)]
pub struct MenuFocus {
    pub row: usize,
    pub col: usize,
}

/// How the pointer currently relates to a button.
#[derive(Debug, Clone, Copy, PartialEq, Eq, Structural)]
pub enum ButtonInteraction {
    Pressed,
    Hovered,
    Untouched,
}

/// Each element is smaller than every later one.
pub open spec fn strictly_increasing(s: Seq<usize>) -> bool {
    forall|i: int, j: int| 0 <= i < j < s.len() ==> s[i] < s[j]
}

/// `r` lists the values of `s` once each, in increasing order.
pub open spec fn sorted_set_of(r: Seq<usize>, s: Seq<usize>) -> bool {
    &&& strictly_increasing(r)
    &&& forall|x: usize| r.contains(x) <==> s.contains(x)
}

/// Whether some cell of `coords` lies in row `r`.
pub open spec fn has_row(coords: Seq<(usize, usize)>, r: usize) -> bool {
    exists|c: usize| coords.contains((r, c))
}

/// Whether some cell of `coords` lies in column `c`.
pub open spec fn has_col(coords: Seq<(usize, usize)>, c: usize) -> bool {
    exists|r: usize| coords.contains((r, c))
}

/// `s` lists the rows of `coords` in increasing order.
pub open spec fn lists_rows(s: Seq<usize>, coords: Seq<(usize, usize)>) -> bool {
    &&& strictly_increasing(s)
    &&& forall|x: usize| s.contains(x) <==> has_row(coords, x)
}

/// `s` lists the columns of `coords` in increasing order.
pub open spec fn lists_cols(s: Seq<usize>, coords: Seq<(usize, usize)>) -> bool {
    &&& strictly_increasing(s)
    &&& forall|x: usize| s.contains(x) <==> has_col(coords, x)
}

/// `s` lists the columns used in row `row` in increasing order.
pub open spec fn lists_cols_in_row(s: Seq<usize>, coords: Seq<(usize, usize)>, row: usize) -> bool {
    &&& strictly_increasing(s)
    &&& forall|x: usize| s.contains(x) <==> coords.contains((row, x))
}

/// `s` lists the rows used in column `col` in increasing order.
pub open spec fn lists_rows_in_col(s: Seq<usize>, coords: Seq<(usize, usize)>, col: usize) -> bool {
    &&& strictly_increasing(s)
    &&& forall|x: usize| s.contains(x) <==> coords.contains((x, col))
}

/// The distinct rows of `coords`, ascending.
pub open spec fn grid_rows(coords: Seq<(usize, usize)>) -> Seq<usize> {
    choose|s: Seq<usize>| lists_rows(s, coords)
}

/// The distinct columns of `coords`, ascending.
pub open spec fn grid_cols(coords: Seq<(usize, usize)>) -> Seq<usize> {
    choose|s: Seq<usize>| lists_cols(s, coords)
}

/// The columns of row `row`, ascending.
pub open spec fn row_cols(coords: Seq<(usize, usize)>, row: usize) -> Seq<usize> {
    choose|s: Seq<usize>| lists_cols_in_row(s, coords, row)
}

/// The rows of column `col`, ascending.
pub open spec fn col_rows(coords: Seq<(usize, usize)>, col: usize) -> Seq<usize> {
    choose|s: Seq<usize>| lists_rows_in_col(s, coords, col)
}

/// The position of `x` in `s`, or 0 when `x` is absent.
pub open spec fn index_or_zero(s: Seq<usize>, x: usize) -> int {
    if s.contains(x) {
        s.index_of(x)
    } else {
        0
    }
}

/// The entry `delta` places after `from` in `s`, wrapping around; counting
/// starts at the first entry when `from` is absent.
pub open spec fn cyclic_step(s: Seq<usize>, from: usize, delta: int) -> usize {
    s[(index_or_zero(s, from) + delta) % (s.len() as int)]
}

/// Vertical movement: the focus moves `delta` rows (cyclically, over the
/// distinct rows in use) and keeps its column when the new row has it, or
/// takes the new row's leftmost column otherwise.
pub open spec fn spec_move_vertical(
    focus: MenuFocus,
    delta: int,
    coords: Seq<(usize, usize)>,
) -> MenuFocus {
    let rows = grid_rows(coords);
    if rows.len() == 0 {
        focus
    } else {
        let row = cyclic_step(rows, focus.row, delta);
        let col = if coords.contains((row, focus.col)) {
            focus.col
        } else {
            row_cols(coords, row)[0]
        };
        MenuFocus { row, col }
    }
}

/// Horizontal movement: the focus moves `delta` columns (cyclically, over the
/// columns of its row when that row has more than one, or over all columns
/// otherwise) and keeps its row when the new column has it, or takes the
/// new column's topmost row otherwise. With at most one column nothing moves.
pub open spec fn spec_move_horizontal(
    focus: MenuFocus,
    delta: int,
    coords: Seq<(usize, usize)>,
) -> MenuFocus {
    let in_row = row_cols(coords, focus.row);
    let cols = if in_row.len() > 1 {
        in_row
    } else {
        grid_cols(coords)
    };
    if cols.len() <= 1 {
        focus
    } else {
        let col = cyclic_step(cols, focus.col, delta);
        let row = if coords.contains((focus.row, col)) {
            focus.row
        } else {
            col_rows(coords, col)[0]
        };
        MenuFocus { row, col }
    }
}

/// Two ascending lists with the same elements are equal.
pub proof fn lemma_sorted_unique(a: Seq<usize>, b: Seq<usize>)
    requires
        strictly_increasing(a),
        strictly_increasing(b),
        forall|x: usize| a.contains(x) <==> b.contains(x),
    ensures
        a == b,
    decreases a.len(),
{
    if a.len() == 0 {
        if b.len() > 0 {
            assert(b.contains(b[0]));
        }
    } else {
        assert(a.contains(a[0]));
        assert(b.len() > 0);
        assert(b.contains(b[0]));
        let i = choose|i: int| 0 <= i < a.len() && a[i] == b[0];
        let j = choose|j: int| 0 <= j < b.len() && b[j] == a[0];
        assert(a[0] == b[0]) by {
            if i > 0 {
                assert(a[0] < a[i]);
            }
            if j > 0 {
                assert(b[0] < b[j]);
            }
        }
        let a1 = a.drop_first();
        let b1 = b.drop_first();
        assert forall|x: usize| a1.contains(x) <==> b1.contains(x) by {
            if a1.contains(x) {
                let k = choose|k: int| 0 <= k < a1.len() && a1[k] == x;
                assert(a[k + 1] == x);
                assert(a[0] < x);
                assert(a.contains(x));
                let m = choose|m: int| 0 <= m < b.len() && b[m] == x;
                assert(m != 0);
                assert(b1[m - 1] == x);
            }
            if b1.contains(x) {
                let k = choose|k: int| 0 <= k < b1.len() && b1[k] == x;
                assert(b[k + 1] == x);
                assert(b[0] < x);
                assert(b.contains(x));
                let m = choose|m: int| 0 <= m < a.len() && a[m] == x;
                assert(m != 0);
                assert(a1[m - 1] == x);
            }
        }
        lemma_sorted_unique(a1, b1);
        assert(a == seq![a[0]] + a1);
        assert(b == seq![b[0]] + b1);
    }
}

/// The values of `vals`, each once, in increasing order.
pub fn unique_sorted_dedup(vals: Vec<usize>) -> (r: Vec<usize>)
    ensures
        sorted_set_of(r@, vals@),
{
    let mut out: Vec<usize> = Vec::new();
    let mut i: usize = 0;
    while i < vals.len()
        invariant
            i <= vals.len(),
            strictly_increasing(out@),
            forall|x: usize| out@.contains(x) <==> vals@.take(i as int).contains(x),
        decreases vals.len() - i,
    {
        let v: usize = vals[i];
        let mut j: usize = 0;
        while j < out.len() && out[j] < v
            invariant
                j <= out.len(),
                forall|k: int| 0 <= k < j ==> out@[k] < v,
            decreases out.len() - j,
        {
            j += 1;
        }
        let ghost old_out = out@;
        proof {
            assert(vals@.take(i + 1) == vals@.take(i as int).push(v));
        }
        if j < out.len() && out[j] == v {
            assert forall|x: usize| out@.contains(x) <==> vals@.take(i + 1).contains(x) by {
                if vals@.take(i + 1).contains(x) && x == v {
                    assert(out@[j as int] == x);
                }
            }
        } else {
            out.insert(j, v);
            proof {
                old_out.insert_ensures(j as int, v);
                assert forall|a: int, b: int| 0 <= a < b < out@.len() implies out@[a] < out@[b] by {
                    if b < j {
                    } else if b == j {
                    } else if a < j {
                        assert(out@[b] == old_out[b - 1]);
                        assert(old_out[j as int] >= v);
                        if b - 1 > j {
                            assert(old_out[j as int] < old_out[b - 1]);
                        }
                    } else if a == j {
                        assert(out@[b] == old_out[b - 1]);
                        assert(old_out[j as int] >= v);
                        assert(old_out[j as int] != v);
                        if b - 1 > j {
                            assert(old_out[j as int] < old_out[b - 1]);
                        }
                    } else {
                        assert(out@[a] == old_out[a - 1]);
                        assert(out@[b] == old_out[b - 1]);
                    }
                }
                assert forall|x: usize| out@.contains(x) <==> vals@.take(i + 1).contains(x) by {
                    if out@.contains(x) {
                        let k = choose|k: int| 0 <= k < out@.len() && out@[k] == x;
                        if k < j {
                            assert(old_out[k] == x);
                        } else if k > j {
                            assert(old_out[k - 1] == x);
                        }
                        if x != v {
                            assert(old_out.contains(x));
                            assert(vals@.take(i as int).contains(x));
                            let t = vals@.take(i as int);
                            let m = choose|m: int| 0 <= m < t.len() && t[m] == x;
                            assert(vals@.take(i + 1)[m] == x);
                        } else {
                            assert(vals@.take(i + 1)[i as int] == x);
                        }
                    }
                    if vals@.take(i + 1).contains(x) {
                        let t = vals@.take(i + 1);
                        let m = choose|m: int| 0 <= m < t.len() && t[m] == x;
                        if m < i {
                            assert(vals@.take(i as int)[m] == x);
                            assert(old_out.contains(x));
                            let k = choose|k: int| 0 <= k < old_out.len() && old_out[k] == x;
                            if k < j {
                                assert(out@[k] == x);
                            } else {
                                assert(out@[k + 1] == x);
                            }
                        } else {
                            assert(out@[j as int] == x);
                        }
                    }
                }
            }
        }
        i += 1;
    }
    proof {
        assert(vals@.take(vals.len() as int) == vals@);
    }
    out
}

/// The position of `x` in the ascending list `s`, or 0 when it is absent.
fn position_or_zero(s: &Vec<usize>, x: usize) -> (r: usize)
    requires
        strictly_increasing(s@),
    ensures
        r == index_or_zero(s@, x),
        s@.len() > 0 ==> r < s@.len(),
{
    let mut j: usize = 0;
    while j < s.len()
        invariant
            j <= s.len(),
            strictly_increasing(s@),
            forall|k: int| 0 <= k < j ==> s@[k] != x,
        decreases s.len() - j,
    {
        if s[j] == x {
            proof {
                assert(s@[j as int] == x);
                assert(s@.contains(x));
                let k: int = s@.index_of(x);
                assert(0 <= k < s@.len() && s@[k] == x);
                if k < j {
                    assert(s@[k] < s@[j as int]);
                } else if k > j {
                    assert(s@[j as int] < s@[k]);
                }
            }
            return j;
        }
        j += 1;
    }
    0
}

/// Whether `coords` holds `cell`.
fn contains_cell(coords: &Vec<(usize, usize)>, cell: (usize, usize)) -> (r: bool)
    ensures
        r == coords@.contains(cell),
{
    let mut i: usize = 0;
    while i < coords.len()
        invariant
            i <= coords.len(),
            forall|k: int| 0 <= k < i ==> coords@[k] != cell,
        decreases coords.len() - i,
    {
        let c = coords[i];
        if c.0 == cell.0 && c.1 == cell.1 {
            return true;
        }
        i += 1;
    }
    false
}

/// The distinct rows in use, ascending.
fn rows_in_use(coords: &Vec<(usize, usize)>) -> (r: Vec<usize>)
    ensures
        lists_rows(r@, coords@),
        r@ == grid_rows(coords@),
{
    let mut all: Vec<usize> = Vec::new();
    let mut i: usize = 0;
    while i < coords.len()
        invariant
            i <= coords.len(),
            all@.len() == i,
            forall|k: int| 0 <= k < i ==> all@[k] == coords@[k].0,
        decreases coords.len() - i,
    {
        all.push(coords[i].0);
        i += 1;
    }
    let r = unique_sorted_dedup(all);
    proof {
        assert forall|x: usize| r@.contains(x) <==> has_row(coords@, x) by {
            if r@.contains(x) {
                assert(all@.contains(x));
                let k = choose|k: int| 0 <= k < all@.len() && all@[k] == x;
                assert(coords@.contains((x, coords@[k].1)));
            }
            if has_row(coords@, x) {
                let c = choose|c: usize| coords@.contains((x, c));
                let k = choose|k: int| 0 <= k < coords@.len() && coords@[k] == (x, c);
                assert(all@[k] == x);
            }
        }
        assert(lists_rows(r@, coords@));
        lemma_sorted_unique(r@, grid_rows(coords@));
    }
    r
}

/// The distinct columns in use, ascending.
fn cols_in_use(coords: &Vec<(usize, usize)>) -> (r: Vec<usize>)
    ensures
        lists_cols(r@, coords@),
        r@ == grid_cols(coords@),
{
    let mut all: Vec<usize> = Vec::new();
    let mut i: usize = 0;
    while i < coords.len()
        invariant
            i <= coords.len(),
            all@.len() == i,
            forall|k: int| 0 <= k < i ==> all@[k] == coords@[k].1,
        decreases coords.len() - i,
    {
        all.push(coords[i].1);
        i += 1;
    }
    let r = unique_sorted_dedup(all);
    proof {
        assert forall|x: usize| r@.contains(x) <==> has_col(coords@, x) by {
            if r@.contains(x) {
                assert(all@.contains(x));
                let k = choose|k: int| 0 <= k < all@.len() && all@[k] == x;
                assert(coords@.contains((coords@[k].0, x)));
            }
            if has_col(coords@, x) {
                let rr = choose|rr: usize| coords@.contains((rr, x));
                let k = choose|k: int| 0 <= k < coords@.len() && coords@[k] == (rr, x);
                assert(all@[k] == x);
            }
        }
        assert(lists_cols(r@, coords@));
        lemma_sorted_unique(r@, grid_cols(coords@));
    }
    r
}

/// The columns used in row `row`, ascending.
fn cols_of_row(coords: &Vec<(usize, usize)>, row: usize) -> (r: Vec<usize>)
    ensures
        lists_cols_in_row(r@, coords@, row),
        r@ == row_cols(coords@, row),
{
    let mut all: Vec<usize> = Vec::new();
    let mut i: usize = 0;
    while i < coords.len()
        invariant
            i <= coords.len(),
            forall|x: usize| all@.contains(x) <==> coords@.take(i as int).contains((row, x)),
        decreases coords.len() - i,
    {
        let c = coords[i];
        proof {
            assert(coords@.take(i + 1) == coords@.take(i as int).push(c));
        }
        if c.0 == row {
            all.push(c.1);
        }
        i += 1;
    }
    proof {
        assert(coords@.take(coords.len() as int) == coords@);
    }
    let r = unique_sorted_dedup(all);
    proof {
        assert(lists_cols_in_row(r@, coords@, row));
        lemma_sorted_unique(r@, row_cols(coords@, row));
    }
    r
}

/// The rows used in column `col`, ascending.
fn rows_of_col(coords: &Vec<(usize, usize)>, col: usize) -> (r: Vec<usize>)
    ensures
        lists_rows_in_col(r@, coords@, col),
        r@ == col_rows(coords@, col),
{
    let mut all: Vec<usize> = Vec::new();
    let mut i: usize = 0;
    while i < coords.len()
        invariant
            i <= coords.len(),
            forall|x: usize| all@.contains(x) <==> coords@.take(i as int).contains((x, col)),
        decreases coords.len() - i,
    {
        let c = coords[i];
        proof {
            assert(coords@.take(i + 1) == coords@.take(i as int).push(c));
        }
        if c.1 == col {
            all.push(c.0);
        }
        i += 1;
    }
    proof {
        assert(coords@.take(coords.len() as int) == coords@);
    }
    let r = unique_sorted_dedup(all);
    proof {
        assert(lists_rows_in_col(r@, coords@, col));
        lemma_sorted_unique(r@, col_rows(coords@, col));
    }
    r
}

/// The index `delta` steps after `cur`, wrapping around `n` entries.
fn wrap_index(cur: usize, delta: i32, n: usize) -> (r: usize)
    requires
        n > 0,
    ensures
        r == (cur + delta) % (n as int),
        r < n,
{
    let x: i128 = cur as i128 + delta as i128;
    match x.checked_rem_euclid(n as i128) {
        Some(v) => v as usize,
        None => 0,
    }
}

/// Moves the focus `delta` rows; see `spec_move_vertical`.
pub fn move_vertical(focus: MenuFocus, delta: i32, coords: &Vec<(usize, usize)>) -> (r: MenuFocus)
    ensures
        r == spec_move_vertical(focus, delta as int, coords@),
{
    let rows = rows_in_use(coords);
    if rows.len() == 0 {
        return focus;
    }
    let n: usize = rows.len();
    let cur: usize = position_or_zero(&rows, focus.row);
    let next_row: usize = rows[wrap_index(cur, delta, n)];
    let next_col: usize = if contains_cell(coords, (next_row, focus.col)) {
        focus.col
    } else {
        let cols = cols_of_row(coords, next_row);
        proof {
            assert(rows@.contains(next_row));
            let c = choose|c: usize| coords@.contains((next_row, c));
            assert(cols@.contains(c));
        }
        cols[0]
    };
    MenuFocus { row: next_row, col: next_col }
}

/// Moves the focus `delta` columns; see `spec_move_horizontal`.
pub fn move_horizontal(focus: MenuFocus, delta: i32, coords: &Vec<(usize, usize)>) -> (r: MenuFocus)
    ensures
        r == spec_move_horizontal(focus, delta as int, coords@),
{
    let row_cols_v = cols_of_row(coords, focus.row);
    let cols = if row_cols_v.len() > 1 {
        row_cols_v
    } else {
        cols_in_use(coords)
    };
    if cols.len() <= 1 {
        return focus;
    }
    let n: usize = cols.len();
    let cur: usize = position_or_zero(&cols, focus.col);
    let next_col: usize = cols[wrap_index(cur, delta, n)];
    proof {
        assert(cols@.contains(next_col));
        if row_cols_v@.len() > 1 {
            assert(coords@.contains((focus.row, next_col)));
        }
        assert(has_col(coords@, next_col));
    }
    if contains_cell(coords, (focus.row, next_col)) {
        return MenuFocus { row: focus.row, col: next_col };
    }
    let rows = rows_of_col(coords, next_col);
    proof {
        let rr = choose|rr: usize| coords@.contains((rr, next_col));
        assert(rows@.contains(rr));
    }
    MenuFocus { row: rows[0], col: next_col }
}

/// One navigation action applied to the focus and the pending press.
pub open spec fn nav_step(
    state: (MenuFocus, Option<(usize, usize)>),
    action: Action,
    coords: Seq<(usize, usize)>,
) -> (MenuFocus, Option<(usize, usize)>) {
    let focus = state.0;
    match action {
        Action::Menu(MenuAction::Up) => (spec_move_vertical(focus, -1, coords), state.1),
        Action::Menu(MenuAction::Down) => (spec_move_vertical(focus, 1, coords), state.1),
        Action::Menu(MenuAction::Left) => (spec_move_horizontal(focus, -1, coords), state.1),
        Action::Menu(MenuAction::Right) => (spec_move_horizontal(focus, 1, coords), state.1),
        Action::Menu(MenuAction::Select) => (focus, Some((focus.row, focus.col))),
        _ => state,
    }
}

/// A frame's actions applied in order.
pub open spec fn nav_frame(
    state: (MenuFocus, Option<(usize, usize)>),
    events: Seq<ActionEvent>,
    coords: Seq<(usize, usize)>,
) -> (MenuFocus, Option<(usize, usize)>)
    decreases events.len(),
{
    if events.len() == 0 {
        state
    } else {
        nav_step(nav_frame(state, events.drop_last(), coords), events.last().action, coords)
    }
}

/// Applies a frame's menu actions to the focus and pending press: the four
/// directions move the focus over the layout and select marks the focused
/// button as pending. With an empty layout nothing changes.
pub fn handle_menu_navigation<F>(
    events: &Vec<ActionEvent>,
    focus: &mut MenuFocus,
    layout: &MenuLayout<F>,
    pending: &mut PendingButtonPress,
)
    ensures
        spec_coords(layout@).len() == 0 ==> *final(focus) == *old(focus) && final(pending).0
            == old(pending).0,
        spec_coords(layout@).len() > 0 ==> (*final(focus), final(pending).0) == nav_frame(
            (*old(focus), old(pending).0),
            events@,
            spec_coords(layout@),
        ),
{
    let coords = layout.coords();
    if coords.len() == 0 {
        return;
    }
    let mut i: usize = 0;
    while i < events.len()
        invariant
            i <= events.len(),
            coords@ == spec_coords(layout@),
            (*focus, pending.0) == nav_frame(
                (*old(focus), old(pending).0),
                events@.take(i as int),
                coords@,
            ),
        decreases events.len() - i,
    {
        proof {
            assert(events@.take(i + 1).drop_last() == events@.take(i as int));
        }
        match events[i].action {
            Action::Menu(MenuAction::Up) => {
                *focus = move_vertical(*focus, -1, &coords);
            },
            Action::Menu(MenuAction::Down) => {
                *focus = move_vertical(*focus, 1, &coords);
            },
            Action::Menu(MenuAction::Left) => {
                *focus = move_horizontal(*focus, -1, &coords);
            },
            Action::Menu(MenuAction::Right) => {
                *focus = move_horizontal(*focus, 1, &coords);
            },
            Action::Menu(MenuAction::Select) => {
                pending.0 = Some((focus.row, focus.col));
            },
            _ => {},
        }
        i += 1;
    }
    proof {
        assert(events@.take(events.len() as int) == events@);
    }
}

/// Takes the pending press and returns the callback of the button it names,
/// if that button exists; no press is pending afterwards.
pub fn take_pending_button<'a, F>(
    pending: &mut PendingButtonPress,
    layout: &'a MenuLayout<F>,
) -> (r: Option<&'a F>)
    ensures
        final(pending).0.is_none(),
        r == (match old(pending).0 {
            Some(cell) => if in_grid(layout@, cell.0 as int, cell.1 as int) {
                Some(&layout@[cell.0 as int][cell.1 as int].on_press)
            } else {
                None
            },
            None => None,
        }),
{
    let p = pending.0.take();
    match p {
        Some((row, col)) => match layout.get(row, col) {
            Some(e) => Some(&e.on_press),
            None => None,
        },
        None => None,
    }
}

/// Cell `a` comes after cell `b` in row-major order.
pub open spec fn cell_after(a: (int, int), b: (int, int)) -> bool {
    a.0 > b.0 || (a.0 == b.0 && a.1 > b.1)
}

/// `found` is the last cell, in row-major order, whose button is `entity`
/// (or `None` when no button is).
pub open spec fn is_last_match<F>(
    rows: Seq<Seq<ButtonEntry<F>>>,
    entity: u64,
    found: Option<(usize, usize)>,
) -> bool {
    match found {
        None => forall|i: int, j: int|
            #![trigger rows[i][j]]
            in_grid(rows, i, j) ==> rows[i][j].entity != entity,
        Some(cell) => {
            &&& in_grid(rows, cell.0 as int, cell.1 as int)
            &&& rows[cell.0 as int][cell.1 as int].entity == entity
            &&& forall|i: int, j: int|
                #![trigger rows[i][j]]
                in_grid(rows, i, j) && cell_after((i, j), (cell.0 as int, cell.1 as int))
                    ==> rows[i][j].entity != entity
        },
    }
}

/// The last cell holding `entity`, if any.
pub open spec fn spec_locate<F>(rows: Seq<Seq<ButtonEntry<F>>>, entity: u64) -> Option<(usize, usize)> {
    choose|o: Option<(usize, usize)>| is_last_match(rows, entity, o)
}

/// At most one answer is the last match.
pub proof fn lemma_last_match_unique<F>(
    rows: Seq<Seq<ButtonEntry<F>>>,
    entity: u64,
    a: Option<(usize, usize)>,
    b: Option<(usize, usize)>,
)
    requires
        is_last_match(rows, entity, a),
        is_last_match(rows, entity, b),
    ensures
        a == b,
{
    match (a, b) {
        (Some(x), Some(y)) => {
            let _ = rows[x.0 as int][x.1 as int];
            let _ = rows[y.0 as int][y.1 as int];
        },
        (Some(x), None) => {
            let _ = rows[x.0 as int][x.1 as int];
        },
        (None, Some(y)) => {
            let _ = rows[y.0 as int][y.1 as int];
        },
        (None, None) => {},
    }
}

/// Finds the last cell, in row-major order, whose button is `entity`.
pub fn locate_button<F>(layout: &MenuLayout<F>, entity: u64) -> (r: Option<(usize, usize)>)
    ensures
        is_last_match(layout@, entity, r),
        r == spec_locate(layout@, entity),
{
    let ghost rows = layout@;
    let mut found: Option<(usize, usize)> = None;
    let mut r: usize = 0;
    while r < layout.rows.len()
        invariant
            rows == layout@,
            r <= layout.rows.len(),
            match found {
                None => forall|i: int, j: int|
                    #![trigger rows[i][j]]
                    in_grid(rows, i, j) && i < r ==> rows[i][j].entity != entity,
                Some(cell) => {
                    &&& in_grid(rows, cell.0 as int, cell.1 as int)
                    &&& cell.0 < r
                    &&& rows[cell.0 as int][cell.1 as int].entity == entity
                    &&& forall|i: int, j: int|
                        #![trigger rows[i][j]]
                        in_grid(rows, i, j) && i < r && cell_after(
                            (i, j),
                            (cell.0 as int, cell.1 as int),
                        ) ==> rows[i][j].entity != entity
                },
            },
        decreases layout.rows.len() - r,
    {
        let row = &layout.rows[r];
        proof {
            assert(rows[r as int] == row@);
        }
        let mut c: usize = 0;
        while c < row.len()
            invariant
                rows == layout@,
                r < layout.rows.len(),
                rows[r as int] == row@,
                c <= row.len(),
                match found {
                    None => forall|i: int, j: int|
                        #![trigger rows[i][j]]
                        in_grid(rows, i, j) && (i < r || (i == r && j < c)) ==> rows[i][j].entity
                            != entity,
                    Some(cell) => {
                        &&& in_grid(rows, cell.0 as int, cell.1 as int)
                        &&& (cell.0 < r || (cell.0 == r && cell.1 < c))
                        &&& rows[cell.0 as int][cell.1 as int].entity == entity
                        &&& forall|i: int, j: int|
                            #![trigger rows[i][j]]
                            in_grid(rows, i, j) && (i < r || (i == r && j < c)) && cell_after(
                                (i, j),
                                (cell.0 as int, cell.1 as int),
                            ) ==> rows[i][j].entity != entity
                    },
                },
            decreases row.len() - c,
        {
            if row[c].entity == entity {
                found = Some((r, c));
            }
            c += 1;
        }
        r += 1;
    }
    proof {
        assert(is_last_match(rows, entity, found));
        lemma_last_match_unique(rows, entity, found, spec_locate(rows, entity));
    }
    found
}

/// One hover report applied to the focus.
pub open spec fn hover_step<F>(
    focus: MenuFocus,
    rows: Seq<Seq<ButtonEntry<F>>>,
    interaction: (u64, ButtonInteraction),
) -> MenuFocus {
    if interaction.1 == ButtonInteraction::Hovered {
        match spec_locate(rows, interaction.0) {
            Some(cell) => MenuFocus { row: cell.0, col: cell.1 },
            None => focus,
        }
    } else {
        focus
    }
}

/// All hover reports of a frame, in order.
pub open spec fn hover_frame<F>(
    focus: MenuFocus,
    rows: Seq<Seq<ButtonEntry<F>>>,
    interactions: Seq<(u64, ButtonInteraction)>,
) -> MenuFocus
    decreases interactions.len(),
{
    if interactions.len() == 0 {
        focus
    } else {
        hover_step(hover_frame(focus, rows, interactions.drop_last()), rows, interactions.last())
    }
}

/// One click report applied to the focus and the pending press.
pub open spec fn click_step<F>(
    state: (MenuFocus, Option<(usize, usize)>),
    rows: Seq<Seq<ButtonEntry<F>>>,
    interaction: (u64, ButtonInteraction),
) -> (MenuFocus, Option<(usize, usize)>) {
    if interaction.1 == ButtonInteraction::Pressed {
        match spec_locate(rows, interaction.0) {
            Some(cell) => (MenuFocus { row: cell.0, col: cell.1 }, Some(cell)),
            None => state,
        }
    } else {
        state
    }
}

/// All click reports of a frame, in order.
pub open spec fn click_frame<F>(
    state: (MenuFocus, Option<(usize, usize)>),
    rows: Seq<Seq<ButtonEntry<F>>>,
    interactions: Seq<(u64, ButtonInteraction)>,
) -> (MenuFocus, Option<(usize, usize)>)
    decreases interactions.len(),
{
    if interactions.len() == 0 {
        state
    } else {
        click_step(click_frame(state, rows, interactions.drop_last()), rows, interactions.last())
    }
}

/// A pressed button of the layout takes the focus and becomes the pending press.
pub fn handle_menu_clicks<F>(
    interactions: &Vec<(u64, ButtonInteraction)>,
    layout: &MenuLayout<F>,
    focus: &mut MenuFocus,
    pending: &mut PendingButtonPress,
)
    ensures
        (*final(focus), final(pending).0) == click_frame(
            (*old(focus), old(pending).0),
            layout@,
            interactions@,
        ),
{
    let mut i: usize = 0;
    while i < interactions.len()
        invariant
            i <= interactions.len(),
            (*focus, pending.0) == click_frame(
                (*old(focus), old(pending).0),
                layout@,
                interactions@.take(i as int),
            ),
        decreases interactions.len() - i,
    {
        proof {
            assert(interactions@.take(i + 1).drop_last() == interactions@.take(i as int));
        }
        let (entity, interaction) = interactions[i];
        if interaction == ButtonInteraction::Pressed {
            if let Some((r, c)) = locate_button(layout, entity) {
                focus.row = r;
                focus.col = c;
                pending.0 = Some((r, c));
            }
        }
        i += 1;
    }
    proof {
        assert(interactions@.take(interactions.len() as int) == interactions@);
    }
}

/// A hovered button of the layout takes the focus.
pub fn handle_menu_hover<F>(
    interactions: &Vec<(u64, ButtonInteraction)>,
    layout: &MenuLayout<F>,
    focus: &mut MenuFocus,
)
    ensures
        *final(focus) == hover_frame(*old(focus), layout@, interactions@),
{
    let mut i: usize = 0;
    while i < interactions.len()
        invariant
            i <= interactions.len(),
            *focus == hover_frame(*old(focus), layout@, interactions@.take(i as int)),
        decreases interactions.len() - i,
    {
        proof {
            assert(interactions@.take(i + 1).drop_last() == interactions@.take(i as int));
        }
        let (entity, interaction) = interactions[i];
        if interaction == ButtonInteraction::Hovered {
            if let Some((r, c)) = locate_button(layout, entity) {
                focus.row = r;
                focus.col = c;
            }
        }
        i += 1;
    }
    proof {
        assert(interactions@.take(interactions.len() as int) == interactions@);
    }
}

/// The entity of the focused button, if the focus names a button.
pub open spec fn spec_focused_entity<F>(rows: Seq<Seq<ButtonEntry<F>>>, focus: MenuFocus) -> Option<
    u64,
> {
    if in_grid(rows, focus.row as int, focus.col as int) {
        Some(rows[focus.row as int][focus.col as int].entity)
    } else {
        None
    }
}

/// The entity of the focused button, if the focus names a button.
pub fn focused_entity<F>(layout: &MenuLayout<F>, focus: MenuFocus) -> (r: Option<u64>)
    ensures
        r == spec_focused_entity(layout@, focus),
{
    match layout.get(focus.row, focus.col) {
        Some(e) => Some(e.entity),
        None => None,
    }
}

/// For each button entity, whether it is the focused one and so drawn highlighted.
pub fn button_highlights<F>(layout: &MenuLayout<F>, focus: MenuFocus, buttons: &Vec<u64>) -> (r: Vec<
    bool,
>)
    ensures
        r@.len() == buttons@.len(),
        forall|i: int|
            0 <= i < buttons@.len() ==> #[trigger] r@[i] == (spec_focused_entity(layout@, focus)
                == Some(buttons@[i])),
{
    let focused = focused_entity(layout, focus);
    let mut out: Vec<bool> = Vec::new();
    let mut i: usize = 0;
    while i < buttons.len()
        invariant
            i <= buttons.len(),
            focused == spec_focused_entity(layout@, focus),
            out@.len() == i,
            forall|k: int|
                0 <= k < i ==> #[trigger] out@[k] == (focused == Some(buttons@[k])),
        decreases buttons.len() - i,
    {
        let lit = match focused {
            Some(e) => e == buttons[i],
            None => false,
        };
        out.push(lit);
        i += 1;
    }
    out
}

/// `s` with `x` placed in order (unchanged when `x` is already there).
pub open spec fn sorted_insert(s: Seq<usize>, x: usize) -> Seq<usize>
    decreases s.len(),
{
    if s.len() == 0 {
        seq![x]
    } else if x < s[0] {
        seq![x] + s
    } else if x == s[0] {
        s
    } else {
        seq![s[0]] + sorted_insert(s.drop_first(), x)
    }
}

/// The values of `s`, each once, ascending.
pub open spec fn sorted_values(s: Seq<usize>) -> Seq<usize>
    decreases s.len(),
{
    if s.len() == 0 {
        Seq::empty()
    } else {
        sorted_insert(sorted_values(s.drop_last()), s.last())
    }
}

/// The value at a valid index of `s` is one that `s` contains.
proof fn lemma_value_at_is_contained(s: Seq<usize>, i: int)
    requires
        0 <= i < s.len(),
    ensures
        s.contains(s[i]),
{
    assert(exists|k: int| 0 <= k < s.len() && s[k] == s[i]) by {
        assert(0 <= i < s.len() && s[i] == s[i]);
    }
}

/// Inserting `x` into a strictly increasing sequence keeps it strictly
/// increasing and adds exactly `x` to its values.
#[verifier::spinoff_prover]
proof fn lemma_sorted_insert(s: Seq<usize>, x: usize)
    requires
        strictly_increasing(s),
    ensures
        strictly_increasing(sorted_insert(s, x)),
        forall|y: usize| sorted_insert(s, x).contains(y) <==> (s.contains(y) || y == x),
        sorted_insert(s, x).len() > 0,
        sorted_insert(s, x)[0] == (if s.len() > 0 && s[0] < x {
            s[0]
        } else {
            x
        }),
    decreases s.len(),
{
    let t = sorted_insert(s, x);
    if s.len() == 0 {
        assert(t[0] == x);
    } else if x < s[0] {
        assert forall|y: usize| t.contains(y) <==> (s.contains(y) || y == x) by {
            if t.contains(y) {
                let k = choose|k: int| 0 <= k < t.len() && t[k] == y;
                if k > 0 {
                    assert(s[k - 1] == y);
                }
            }
            if s.contains(y) {
                let k = choose|k: int| 0 <= k < s.len() && s[k] == y;
                assert(t[k + 1] == y);
            }
            if y == x {
                assert(t[0] == y);
            }
        }
        assert forall|i: int, j: int| 0 <= i < j < t.len() implies t[i] < t[j] by {
            if i == 0 {
                if j > 1 {
                    assert(s[0] < s[j - 1]);
                }
            }
        }
    } else if x == s[0] {
        lemma_value_at_is_contained(s, 0);
    } else {
        let rest = s.drop_first();
        assert forall|i: int, j: int| 0 <= i < j < rest.len() implies rest[i] < rest[j] by {
            assert(s[i + 1] < s[j + 1]);
        }
        lemma_sorted_insert(rest, x);
        let u = sorted_insert(rest, x);
        assert(t == seq![s[0]] + u);
        assert forall|y: usize| t.contains(y) <==> (s.contains(y) || y == x) by {
            if t.contains(y) {
                let k = choose|k: int| 0 <= k < t.len() && t[k] == y;
                if k > 0 {
                    assert(u[k - 1] == y);
                    lemma_value_at_is_contained(u, k - 1);
                    assert(u.contains(y));
                    if rest.contains(y) {
                        let m = choose|m: int| 0 <= m < rest.len() && rest[m] == y;
                        assert(s[m + 1] == y);
                    }
                } else {
                    assert(s[0] == y);
                }
            }
            if s.contains(y) {
                let k = choose|k: int| 0 <= k < s.len() && s[k] == y;
                if k > 0 {
                    assert(rest[k - 1] == y);
                    lemma_value_at_is_contained(rest, k - 1);
                    assert(u.contains(y));
                    let m = choose|m: int| 0 <= m < u.len() && u[m] == y;
                    assert(t[m + 1] == y);
                } else {
                    assert(t[0] == y);
                }
            }
            if y == x {
                assert(u.contains(y));
                let m = choose|m: int| 0 <= m < u.len() && u[m] == y;
                assert(t[m + 1] == y);
            }
        }
        assert forall|i: int, j: int| 0 <= i < j < t.len() implies t[i] < t[j] by {
            if i == 0 {
                let v = u[j - 1];
                lemma_value_at_is_contained(u, j - 1);
                assert(u.contains(v));
                if rest.contains(v) {
                    let m = choose|m: int| 0 <= m < rest.len() && rest[m] == v;
                    assert(s[0] < s[m + 1]);
                }
            } else {
                assert(t[i] == u[i - 1]);
                assert(t[j] == u[j - 1]);
            }
        }
    }
}

/// `sorted_values(s)` lists the values of `s` once each, ascending.
pub proof fn lemma_sorted_values(s: Seq<usize>)
    ensures
        sorted_set_of(sorted_values(s), s),
    decreases s.len(),
{
    if s.len() > 0 {
        let init = s.drop_last();
        lemma_sorted_values(init);
        lemma_sorted_insert(sorted_values(init), s.last());
        assert forall|y: usize| sorted_values(s).contains(y) <==> s.contains(y) by {
            if init.contains(y) {
                let k = choose|k: int| 0 <= k < init.len() && init[k] == y;
                assert(s[k] == y);
            }
            if s.contains(y) {
                let k = choose|k: int| 0 <= k < s.len() && s[k] == y;
                if k < s.len() - 1 {
                    assert(init[k] == y);
                }
            }
        }
    }
}

/// The first component of every cell.
pub open spec fn row_seq(coords: Seq<(usize, usize)>) -> Seq<usize> {
    coords.map_values(|p: (usize, usize)| p.0)
}

/// The second component of every cell.
pub open spec fn col_seq(coords: Seq<(usize, usize)>) -> Seq<usize> {
    coords.map_values(|p: (usize, usize)| p.1)
}

/// The columns of the cells in row `row`, in order of appearance.
pub open spec fn cols_in_row_seq(coords: Seq<(usize, usize)>, row: usize) -> Seq<usize>
    decreases coords.len(),
{
    if coords.len() == 0 {
        Seq::empty()
    } else if coords.last().0 == row {
        cols_in_row_seq(coords.drop_last(), row).push(coords.last().1)
    } else {
        cols_in_row_seq(coords.drop_last(), row)
    }
}

/// The rows of the cells in column `col`, in order of appearance.
pub open spec fn rows_in_col_seq(coords: Seq<(usize, usize)>, col: usize) -> Seq<usize>
    decreases coords.len(),
{
    if coords.len() == 0 {
        Seq::empty()
    } else if coords.last().1 == col {
        rows_in_col_seq(coords.drop_last(), col).push(coords.last().0)
    } else {
        rows_in_col_seq(coords.drop_last(), col)
    }
}

proof fn lemma_cols_in_row_seq(coords: Seq<(usize, usize)>, row: usize)
    ensures
        forall|x: usize| cols_in_row_seq(coords, row).contains(x) <==> coords.contains((row, x)),
    decreases coords.len(),
{
    if coords.len() > 0 {
        let init = coords.drop_last();
        lemma_cols_in_row_seq(init, row);
        let prev = cols_in_row_seq(init, row);
        let cur = cols_in_row_seq(coords, row);
        let last = coords.last();
        assert forall|x: usize| cur.contains(x) <==> coords.contains((row, x)) by {
            if cur.contains(x) {
                let k = choose|k: int| 0 <= k < cur.len() && cur[k] == x;
                if k < prev.len() {
                    assert(prev[k] == x);
                    assert(prev.contains(x));
                    assert(init.contains((row, x)));
                    let m = choose|m: int| 0 <= m < init.len() && init[m] == (row, x);
                    assert(coords[m] == (row, x));
                } else {
                    assert(last.0 == row && last.1 == x);
                    assert(coords[coords.len() - 1] == (row, x));
                }
            }
            if coords.contains((row, x)) {
                let k = choose|k: int| 0 <= k < coords.len() && coords[k] == (row, x);
                if k < coords.len() - 1 {
                    assert(init[k] == (row, x));
                    assert(prev.contains(x));
                    let m = choose|m: int| 0 <= m < prev.len() && prev[m] == x;
                    assert(cur[m] == x);
                } else {
                    assert(cur[cur.len() - 1] == x);
                }
            }
        }
    }
}

proof fn lemma_rows_in_col_seq(coords: Seq<(usize, usize)>, col: usize)
    ensures
        forall|x: usize| rows_in_col_seq(coords, col).contains(x) <==> coords.contains((x, col)),
    decreases coords.len(),
{
    if coords.len() > 0 {
        let init = coords.drop_last();
        lemma_rows_in_col_seq(init, col);
        let prev = rows_in_col_seq(init, col);
        let cur = rows_in_col_seq(coords, col);
        let last = coords.last();
        assert forall|x: usize| cur.contains(x) <==> coords.contains((x, col)) by {
            if cur.contains(x) {
                let k = choose|k: int| 0 <= k < cur.len() && cur[k] == x;
                if k < prev.len() {
                    assert(prev[k] == x);
                    assert(prev.contains(x));
                    assert(init.contains((x, col)));
                    let m = choose|m: int| 0 <= m < init.len() && init[m] == (x, col);
                    assert(coords[m] == (x, col));
                } else {
                    assert(last.1 == col && last.0 == x);
                    assert(coords[coords.len() - 1] == (x, col));
                }
            }
            if coords.contains((x, col)) {
                let k = choose|k: int| 0 <= k < coords.len() && coords[k] == (x, col);
                if k < coords.len() - 1 {
                    assert(init[k] == (x, col));
                    assert(prev.contains(x));
                    let m = choose|m: int| 0 <= m < prev.len() && prev[m] == x;
                    assert(cur[m] == x);
                } else {
                    assert(cur[cur.len() - 1] == x);
                }
            }
        }
    }
}

/// The four listings used by navigation exist, so `grid_rows`, `grid_cols`,
/// `row_cols` and `col_rows` denote them.
pub proof fn lemma_listings(coords: Seq<(usize, usize)>, row: usize, col: usize)
    ensures
        lists_rows(grid_rows(coords), coords),
        lists_cols(grid_cols(coords), coords),
        lists_cols_in_row(row_cols(coords, row), coords, row),
        lists_rows_in_col(col_rows(coords, col), coords, col),
{
    let rs = sorted_values(row_seq(coords));
    lemma_sorted_values(row_seq(coords));
    assert forall|x: usize| rs.contains(x) <==> has_row(coords, x) by {
        if row_seq(coords).contains(x) {
            let k = choose|k: int| 0 <= k < row_seq(coords).len() && row_seq(coords)[k] == x;
            assert(coords.contains((x, coords[k].1)));
        }
        if has_row(coords, x) {
            let c = choose|c: usize| coords.contains((x, c));
            let k = choose|k: int| 0 <= k < coords.len() && coords[k] == (x, c);
            assert(row_seq(coords)[k] == x);
        }
    }
    assert(lists_rows(rs, coords));
    let cs = sorted_values(col_seq(coords));
    lemma_sorted_values(col_seq(coords));
    assert forall|x: usize| cs.contains(x) <==> has_col(coords, x) by {
        if col_seq(coords).contains(x) {
            let k = choose|k: int| 0 <= k < col_seq(coords).len() && col_seq(coords)[k] == x;
            assert(coords.contains((coords[k].0, x)));
        }
        if has_col(coords, x) {
            let r = choose|r: usize| coords.contains((r, x));
            let k = choose|k: int| 0 <= k < coords.len() && coords[k] == (r, x);
            assert(col_seq(coords)[k] == x);
        }
    }
    assert(lists_cols(cs, coords));
    lemma_cols_in_row_seq(coords, row);
    lemma_sorted_values(cols_in_row_seq(coords, row));
    assert(lists_cols_in_row(sorted_values(cols_in_row_seq(coords, row)), coords, row));
    lemma_rows_in_col_seq(coords, col);
    lemma_sorted_values(rows_in_col_seq(coords, col));
    assert(lists_rows_in_col(sorted_values(rows_in_col_seq(coords, col)), coords, col));
}

/// A position found in an ascending list is the index of its value.
proof fn lemma_index_of_distinct(s: Seq<usize>, k: int)
    requires
        strictly_increasing(s),
        0 <= k < s.len(),
    ensures
        s.contains(s[k]),
        index_or_zero(s, s[k]) == k,
{
    assert(s.contains(s[k]));
    let m = s.index_of(s[k]);
    assert(0 <= m < s.len() && s[m] == s[k]);
    if m < k {
        assert(s[m] < s[k]);
    } else if m > k {
        assert(s[k] < s[m]);
    }
}

/// Law: vertical movement always lands on a button of a non-empty layout.
pub proof fn law_vertical_move_lands_on_button(focus: MenuFocus, delta: int, coords: Seq<
    (usize, usize),
>)
    requires
        coords.len() > 0,
    ensures
        coords.contains(
            (spec_move_vertical(focus, delta, coords).row, spec_move_vertical(focus, delta, coords).col),
        ),
{
    let rows = grid_rows(coords);
    lemma_listings(coords, 0, 0);
    assert(coords[0] == (coords[0].0, coords[0].1));
    assert(coords.contains((coords[0].0, coords[0].1)));
    assert(has_row(coords, coords[0].0));
    assert(rows.contains(coords[0].0));
    let idx: int = (index_or_zero(rows, focus.row) + delta) % (rows.len() as int);
    let row = rows[idx];
    assert(rows.contains(row));
    assert(has_row(coords, row));
    if !coords.contains((row, focus.col)) {
        lemma_listings(coords, row, 0);
        let c = choose|c: usize| coords.contains((row, c));
        assert(row_cols(coords, row).contains(c));
        assert(row_cols(coords, row).contains(row_cols(coords, row)[0]));
    }
}

/// Law: horizontal movement either keeps the focus (when the layout offers
/// at most one column to move over) or lands on a button of the layout.
pub proof fn law_horizontal_move_lands_on_button(focus: MenuFocus, delta: int, coords: Seq<
    (usize, usize),
>)
    ensures
        spec_move_horizontal(focus, delta, coords) == focus || coords.contains(
            (
                spec_move_horizontal(focus, delta, coords).row,
                spec_move_horizontal(focus, delta, coords).col,
            ),
        ),
{
    lemma_listings(coords, focus.row, 0);
    let in_row = row_cols(coords, focus.row);
    let cols = if in_row.len() > 1 {
        in_row
    } else {
        grid_cols(coords)
    };
    if cols.len() > 1 {
        let idx: int = (index_or_zero(cols, focus.col) + delta) % (cols.len() as int);
        let col = cols[idx];
        assert(cols.contains(col));
        if in_row.len() > 1 {
            assert(coords.contains((focus.row, col)));
        } else {
            assert(has_col(coords, col));
            if !coords.contains((focus.row, col)) {
                lemma_listings(coords, 0, col);
                let r = choose|r: usize| coords.contains((r, col));
                assert(col_rows(coords, col).contains(r));
                assert(col_rows(coords, col).contains(col_rows(coords, col)[0]));
            }
        }
    }
}

/// Law: moving `delta` rows and then `-delta` rows returns to the starting
/// row, when that row holds a button.
pub proof fn law_vertical_moves_cancel(focus: MenuFocus, delta: int, coords: Seq<(usize, usize)>)
    requires
        has_row(coords, focus.row),
    ensures
        spec_move_vertical(spec_move_vertical(focus, delta, coords), -delta, coords).row
            == focus.row,
{
    lemma_listings(coords, 0, 0);
    let rows = grid_rows(coords);
    let n: int = rows.len() as int;
    assert(rows.contains(focus.row));
    let i: int = rows.index_of(focus.row);
    assert(0 <= i < n && rows[i] == focus.row);
    lemma_index_of_distinct(rows, i);
    let j: int = (i + delta) % n;
    vstd::arithmetic::div_mod::lemma_mod_bound(i + delta, n);
    lemma_index_of_distinct(rows, j);
    let first = spec_move_vertical(focus, delta, coords);
    assert(first.row == rows[j]);
    vstd::arithmetic::div_mod::lemma_add_mod_noop_right(-delta, i + delta, n);
    assert((j + (-delta)) % n == ((-delta) + ((i + delta) % n)) % n);
    assert((-delta) + (i + delta) == i);
    vstd::arithmetic::div_mod::lemma_small_mod(i as nat, n as nat);
}

/// Law: when a frame's clicks press any button of the layout, the focus
/// ends on the pending press.
pub proof fn law_click_focuses_pending<F>(
    state: (MenuFocus, Option<(usize, usize)>),
    rows: Seq<Seq<ButtonEntry<F>>>,
    interactions: Seq<(u64, ButtonInteraction)>,
)
    requires
        exists|i: int|
            0 <= i < interactions.len() && interactions[i].1 == ButtonInteraction::Pressed
                && #[trigger] spec_locate(rows, interactions[i].0).is_some(),
    ensures
        ({
            let r = click_frame(state, rows, interactions);
            r.1 == Some((r.0.row, r.0.col))
        }),
    decreases interactions.len(),
{
    let n: int = interactions.len() - 1;
    let last = interactions.last();
    if !(last.1 == ButtonInteraction::Pressed && spec_locate(rows, last.0).is_some()) {
        let i = choose|i: int|
            0 <= i < interactions.len() && interactions[i].1 == ButtonInteraction::Pressed
                && #[trigger] spec_locate(rows, interactions[i].0).is_some();
        assert(i != n);
        let init = interactions.drop_last();
        assert(init[i] == interactions[i]);
        law_click_focuses_pending(state, rows, init);
    }
}

/// In an ascending list holding `x`, one cyclic step forward gives the
/// next larger entry (the smallest one when `x` is the largest), and one
/// step back gives the next smaller entry (the largest one when `x` is the
/// smallest).
proof fn lemma_cyclic_neighbours(s: Seq<usize>, x: usize)
    requires
        strictly_increasing(s),
        s.contains(x),
    ensures
        s.contains(cyclic_step(s, x, 1)),
        s.contains(cyclic_step(s, x, -1)),
        (exists|y: usize| s.contains(y) && y > x) ==> cyclic_step(s, x, 1) > x && forall|y: usize|
            s.contains(y) && y > x ==> cyclic_step(s, x, 1) <= y,
        !(exists|y: usize| s.contains(y) && y > x) ==> forall|y: usize|
            s.contains(y) ==> cyclic_step(s, x, 1) <= y,
        (exists|y: usize| s.contains(y) && y < x) ==> cyclic_step(s, x, -1) < x && forall|y: usize|
            s.contains(y) && y < x ==> y <= cyclic_step(s, x, -1),
        !(exists|y: usize| s.contains(y) && y < x) ==> forall|y: usize|
            s.contains(y) ==> y <= cyclic_step(s, x, -1),
{
    let n: int = s.len() as int;
    let i: int = s.index_of(x);
    assert(0 <= i < n && s[i] == x);
    lemma_index_of_distinct(s, i);
    assert(index_or_zero(s, x) == i);
    // Positions order the values.
    assert forall|y: usize| #[trigger] s.contains(y) implies (y > x <==> s.index_of(y) > i) && (y
        < x <==> s.index_of(y) < i) && 0 <= s.index_of(y) < n && s[s.index_of(y)] == y by {
        let k = s.index_of(y);
        if k < i {
            assert(s[k] < s[i]);
        } else if k > i {
            assert(s[i] < s[k]);
        }
    }
    let nx: int = if i + 1 < n {
        i + 1
    } else {
        0
    };
    if i + 1 < n {
        vstd::arithmetic::div_mod::lemma_small_mod((i + 1) as nat, n as nat);
    } else {
        vstd::arithmetic::div_mod::lemma_mod_self_0(n);
    }
    assert((i + 1) % n == nx);
    assert(cyclic_step(s, x, 1) == s[nx]);
    assert(s.contains(s[nx]));
    let pv: int = if i > 0 {
        i - 1
    } else {
        n - 1
    };
    if i > 0 {
        vstd::arithmetic::div_mod::lemma_small_mod((i - 1) as nat, n as nat);
    } else {
        vstd::arithmetic::div_mod::lemma_mod_add_multiples_vanish(-1, n);
        vstd::arithmetic::div_mod::lemma_small_mod((n - 1) as nat, n as nat);
    }
    assert((i + -1) % n == pv);
    assert(cyclic_step(s, x, -1) == s[pv]);
    assert(s.contains(s[pv]));
    assert forall|y: usize| s.contains(y) && y > x implies s[nx] > x && s[nx] <= y by {
        let k = s.index_of(y);
        assert(k > i);
        assert(nx == i + 1);
        if k > nx {
            assert(s[nx] < s[k]);
        }
        assert(s[i] < s[nx]);
    }
    if !(exists|y: usize| s.contains(y) && y > x) {
        assert(i + 1 >= n) by {
            if i + 1 < n {
                assert(s.contains(s[i + 1]));
                assert(s[i] < s[i + 1]);
            }
        }
        assert forall|y: usize| s.contains(y) implies s[nx] <= y by {
            let k = s.index_of(y);
            if k > 0 {
                assert(s[0] < s[k]);
            }
        }
    }
    assert forall|y: usize| s.contains(y) && y < x implies s[pv] < x && y <= s[pv] by {
        let k = s.index_of(y);
        assert(k < i);
        assert(pv == i - 1);
        if k < pv {
            assert(s[k] < s[pv]);
        }
        assert(s[pv] < s[i]);
    }
    if !(exists|y: usize| s.contains(y) && y < x) {
        assert(i == 0) by {
            if i > 0 {
                assert(s.contains(s[i - 1]));
                assert(s[i - 1] < s[i]);
            }
        }
        assert forall|y: usize| s.contains(y) implies y <= s[pv] by {
            let k = s.index_of(y);
            if k < n - 1 {
                assert(s[k] < s[n - 1]);
            }
        }
    }
}

/// A frame of one event is that event's step.
proof fn lemma_nav_single(
    state: (MenuFocus, Option<(usize, usize)>),
    event: ActionEvent,
    coords: Seq<(usize, usize)>,
)
    ensures
        nav_frame(state, seq![event], coords) == nav_step(state, event.action, coords),
{
    let es = seq![event];
    assert(es.drop_last() =~= Seq::<ActionEvent>::empty());
    assert(es.last() == event);
    assert(nav_frame(state, es.drop_last(), coords) == state);
}

/// Law: on a button whose row holds other buttons, Right moves the focus to
/// the nearest button to its right in that row, wrapping round to the row's
/// leftmost button, and Left to the nearest button to its left, wrapping
/// round to the row's rightmost button; the pending press is untouched.
pub proof fn law_horizontal_actions_step_along_row(
    state: (MenuFocus, Option<(usize, usize)>),
    event: ActionEvent,
    coords: Seq<(usize, usize)>,
)
    requires
        coords.contains((state.0.row, state.0.col)),
        exists|c: usize| c != state.0.col && coords.contains((state.0.row, c)),
        event.action == Action::Menu(MenuAction::Right) || event.action == Action::Menu(
            MenuAction::Left,
        ),
    ensures
        ({
            let f = state.0;
            let r = nav_frame(state, seq![event], coords);
            &&& r.1 == state.1
            &&& r.0.row == f.row
            &&& coords.contains((f.row, r.0.col))
            &&& event.action == Action::Menu(MenuAction::Right) ==> if exists|c: usize|
                coords.contains((f.row, c)) && c > f.col {
                &&& r.0.col > f.col
                &&& forall|c: usize| coords.contains((f.row, c)) && c > f.col ==> r.0.col <= c
            } else {
                forall|c: usize| coords.contains((f.row, c)) ==> r.0.col <= c
            }
            &&& event.action == Action::Menu(MenuAction::Left) ==> if exists|c: usize|
                coords.contains((f.row, c)) && c < f.col {
                &&& r.0.col < f.col
                &&& forall|c: usize| coords.contains((f.row, c)) && c < f.col ==> c <= r.0.col
            } else {
                forall|c: usize| coords.contains((f.row, c)) ==> c <= r.0.col
            }
        }),
{
    let f = state.0;
    lemma_nav_single(state, event, coords);
    lemma_listings(coords, f.row, 0);
    let in_row = row_cols(coords, f.row);
    let other = choose|c: usize| c != f.col && coords.contains((f.row, c));
    assert(in_row.contains(f.col));
    assert(in_row.contains(other));
    assert(in_row.len() > 1) by {
        let a = in_row.index_of(f.col);
        let b = in_row.index_of(other);
        assert(in_row[a] == f.col && in_row[b] == other);
        assert(a != b);
    }
    lemma_cyclic_neighbours(in_row, f.col);
    let next = cyclic_step(in_row, f.col, 1);
    let prev = cyclic_step(in_row, f.col, -1);
    assert(coords.contains((f.row, next)));
    assert(coords.contains((f.row, prev)));
    if exists|c: usize| coords.contains((f.row, c)) && c > f.col {
        let c = choose|c: usize| coords.contains((f.row, c)) && c > f.col;
        assert(in_row.contains(c));
    }
    if exists|c: usize| coords.contains((f.row, c)) && c < f.col {
        let c = choose|c: usize| coords.contains((f.row, c)) && c < f.col;
        assert(in_row.contains(c));
    }
    assert forall|c: usize| coords.contains((f.row, c)) implies #[trigger] in_row.contains(c) by {}
    assert forall|c: usize| coords.contains((f.row, c)) && c > f.col implies next <= c by {
        assert(in_row.contains(c));
    }
    assert forall|c: usize| coords.contains((f.row, c)) && c < f.col implies c <= prev by {
        assert(in_row.contains(c));
    }
    if !(exists|c: usize| coords.contains((f.row, c)) && c > f.col) {
        assert forall|c: usize| coords.contains((f.row, c)) implies next <= c by {
            assert(in_row.contains(c));
        }
    }
    if !(exists|c: usize| coords.contains((f.row, c)) && c < f.col) {
        assert forall|c: usize| coords.contains((f.row, c)) implies c <= prev by {
            assert(in_row.contains(c));
        }
    }
}

/// Law: from a row that holds a button, Down moves the focus to the nearest
/// row below that holds a button, wrapping round to the top one, and Up to
/// the nearest such row above, wrapping round to the bottom one. The focus
/// keeps its column when the new row has a button there, else it takes the
/// new row's leftmost button; the pending press is untouched.
pub proof fn law_vertical_actions_step_between_rows(
    state: (MenuFocus, Option<(usize, usize)>),
    event: ActionEvent,
    coords: Seq<(usize, usize)>,
)
    requires
        has_row(coords, state.0.row),
        event.action == Action::Menu(MenuAction::Down) || event.action == Action::Menu(
            MenuAction::Up,
        ),
    ensures
        ({
            let f = state.0;
            let r = nav_frame(state, seq![event], coords);
            &&& r.1 == state.1
            &&& has_row(coords, r.0.row)
            &&& event.action == Action::Menu(MenuAction::Down) ==> if exists|y: usize|
                has_row(coords, y) && y > f.row {
                &&& r.0.row > f.row
                &&& forall|y: usize| has_row(coords, y) && y > f.row ==> r.0.row <= y
            } else {
                forall|y: usize| has_row(coords, y) ==> r.0.row <= y
            }
            &&& event.action == Action::Menu(MenuAction::Up) ==> if exists|y: usize|
                has_row(coords, y) && y < f.row {
                &&& r.0.row < f.row
                &&& forall|y: usize| has_row(coords, y) && y < f.row ==> y <= r.0.row
            } else {
                forall|y: usize| has_row(coords, y) ==> y <= r.0.row
            }
            &&& coords.contains((r.0.row, f.col)) ==> r.0.col == f.col
            &&& !coords.contains((r.0.row, f.col)) ==> coords.contains((r.0.row, r.0.col))
                && forall|c: usize| coords.contains((r.0.row, c)) ==> r.0.col <= c
        }),
{
    let f = state.0;
    lemma_nav_single(state, event, coords);
    lemma_listings(coords, 0, 0);
    let rows = grid_rows(coords);
    assert(rows.contains(f.row));
    lemma_cyclic_neighbours(rows, f.row);
    if exists|y: usize| has_row(coords, y) && y > f.row {
        let y = choose|y: usize| has_row(coords, y) && y > f.row;
        assert(rows.contains(y));
    }
    if exists|y: usize| has_row(coords, y) && y < f.row {
        let y = choose|y: usize| has_row(coords, y) && y < f.row;
        assert(rows.contains(y));
    }
    assert forall|y: usize| has_row(coords, y) implies rows.contains(y) by {}
    let row = if event.action == Action::Menu(MenuAction::Down) {
        cyclic_step(rows, f.row, 1)
    } else {
        cyclic_step(rows, f.row, -1)
    };
    assert(has_row(coords, row));
    assert(nav_frame(state, seq![event], coords).0.row == row);
    if !coords.contains((row, f.col)) {
        lemma_listings(coords, row, 0);
        let cs = row_cols(coords, row);
        let c0 = choose|c: usize| coords.contains((row, c));
        assert(cs.contains(c0));
        assert(cs.contains(cs[0]));
        assert forall|c: usize| coords.contains((row, c)) implies cs[0] <= c by {
            assert(cs.contains(c));
            let k = cs.index_of(c);
            if k > 0 {
                assert(cs[0] < cs[k]);
            }
        }
    }
}

/// Law: Select marks the focused cell as the pending press and leaves the
/// focus; an action that is no menu action changes nothing.
pub proof fn law_select_marks_focus(
    state: (MenuFocus, Option<(usize, usize)>),
    event: ActionEvent,
    coords: Seq<(usize, usize)>,
)
    ensures
        event.action == Action::Menu(MenuAction::Select) ==> nav_frame(state, seq![event], coords)
            == (state.0, Some((state.0.row, state.0.col))),
        event.action is Player ==> nav_frame(state, seq![event], coords) == state,
{
    lemma_nav_single(state, event, coords);
}

/// Law: only press reports act on clicks. A frame without a press leaves
/// the focus and the pending press as they were, and when the pending press
/// changes it is the button located for some press report of the frame.
pub proof fn law_only_presses_click<F>(
    state: (MenuFocus, Option<(usize, usize)>),
    rows: Seq<Seq<ButtonEntry<F>>>,
    interactions: Seq<(u64, ButtonInteraction)>,
)
    ensures
        (forall|i: int|
            0 <= i < interactions.len() ==> #[trigger] interactions[i].1 != ButtonInteraction::Pressed)
            ==> click_frame(state, rows, interactions) == state,
        click_frame(state, rows, interactions).1 != state.1 ==> exists|i: int|
            0 <= i < interactions.len() && #[trigger] interactions[i].1 == ButtonInteraction::Pressed
                && click_frame(state, rows, interactions).1 == spec_locate(rows, interactions[i].0),
    decreases interactions.len(),
{
    if interactions.len() > 0 {
        let init = interactions.drop_last();
        let n: int = interactions.len() - 1;
        law_only_presses_click(state, rows, init);
        if forall|i: int|
            0 <= i < interactions.len() ==> #[trigger] interactions[i].1 != ButtonInteraction::Pressed {
            assert forall|i: int| 0 <= i < init.len() implies #[trigger] init[i].1
                != ButtonInteraction::Pressed by {
                assert(init[i] == interactions[i]);
            }
            assert(interactions[n].1 != ButtonInteraction::Pressed);
        }
        let prev = click_frame(state, rows, init);
        let r = click_frame(state, rows, interactions);
        if r.1 != state.1 {
            if r.1 == prev.1 {
                let i = choose|i: int|
                    0 <= i < init.len() && #[trigger] init[i].1 == ButtonInteraction::Pressed
                        && prev.1 == spec_locate(rows, init[i].0);
                assert(init[i] == interactions[i]);
            } else {
                assert(interactions[n] == interactions.last());
                assert(interactions[n].1 == ButtonInteraction::Pressed);
            }
        }
    }
}

/// Law: only hover reports act on hovering: a frame without one leaves the
/// focus where it was.
pub proof fn law_only_hovers_move_focus<F>(
    focus: MenuFocus,
    rows: Seq<Seq<ButtonEntry<F>>>,
    interactions: Seq<(u64, ButtonInteraction)>,
)
    requires
        forall|i: int|
            0 <= i < interactions.len() ==> #[trigger] interactions[i].1 != ButtonInteraction::Hovered,
    ensures
        hover_frame(focus, rows, interactions) == focus,
    decreases interactions.len(),
{
    if interactions.len() > 0 {
        let init = interactions.drop_last();
        assert forall|i: int| 0 <= i < init.len() implies #[trigger] init[i].1
            != ButtonInteraction::Hovered by {
            assert(init[i] == interactions[i]);
        }
        law_only_hovers_move_focus(focus, rows, init);
        assert(interactions[interactions.len() - 1].1 != ButtonInteraction::Hovered);
    }
}

/// Law: from the only button of its row, Right moves the focus to the
/// nearest column to the right that holds any button (wrapping round to the
/// leftmost such column) and Left to the nearest such column to the left
/// (wrapping round to the rightmost), landing on that column's topmost
/// button; when no other column holds a button, nothing moves. The pending
/// press is untouched.
pub proof fn law_horizontal_actions_from_lone_button(
    state: (MenuFocus, Option<(usize, usize)>),
    event: ActionEvent,
    coords: Seq<(usize, usize)>,
)
    requires
        coords.contains((state.0.row, state.0.col)),
        forall|c: usize| #[trigger] coords.contains((state.0.row, c)) ==> c == state.0.col,
        event.action == Action::Menu(MenuAction::Right) || event.action == Action::Menu(
            MenuAction::Left,
        ),
    ensures
        ({
            let f = state.0;
            let r = nav_frame(state, seq![event], coords);
            &&& r.1 == state.1
            &&& !(exists|c: usize| has_col(coords, c) && c != f.col) ==> r.0 == f
            &&& (exists|c: usize| has_col(coords, c) && c != f.col) ==> {
                &&& coords.contains((r.0.row, r.0.col))
                &&& forall|y: usize| coords.contains((y, r.0.col)) ==> r.0.row <= y
                &&& event.action == Action::Menu(MenuAction::Right) ==> if exists|c: usize|
                    has_col(coords, c) && c > f.col {
                    &&& r.0.col > f.col
                    &&& forall|c: usize| has_col(coords, c) && c > f.col ==> r.0.col <= c
                } else {
                    forall|c: usize| has_col(coords, c) ==> r.0.col <= c
                }
                &&& event.action == Action::Menu(MenuAction::Left) ==> if exists|c: usize|
                    has_col(coords, c) && c < f.col {
                    &&& r.0.col < f.col
                    &&& forall|c: usize| has_col(coords, c) && c < f.col ==> c <= r.0.col
                } else {
                    forall|c: usize| has_col(coords, c) ==> c <= r.0.col
                }
            }
        }),
{
    let f = state.0;
    lemma_nav_single(state, event, coords);
    lemma_listings(coords, f.row, 0);
    let in_row = row_cols(coords, f.row);
    assert(in_row.len() <= 1) by {
        if in_row.len() > 1 {
            assert(in_row.contains(in_row[0]));
            assert(in_row.contains(in_row[1]));
            assert(in_row[0] < in_row[1]);
        }
    }
    let cols = grid_cols(coords);
    assert(has_col(coords, f.col));
    assert(cols.contains(f.col));
    assert forall|c: usize| has_col(coords, c) implies #[trigger] cols.contains(c) by {}
    if exists|c: usize| has_col(coords, c) && c != f.col {
        let other = choose|c: usize| has_col(coords, c) && c != f.col;
        assert(cols.contains(other));
        assert(cols.len() > 1) by {
            let a = cols.index_of(f.col);
            let b = cols.index_of(other);
            assert(cols[a] == f.col && cols[b] == other);
            assert(a != b);
        }
        lemma_cyclic_neighbours(cols, f.col);
        let col = if event.action == Action::Menu(MenuAction::Right) {
            cyclic_step(cols, f.col, 1)
        } else {
            cyclic_step(cols, f.col, -1)
        };
        assert(cols.contains(col));
        assert(has_col(coords, col));
        if exists|c: usize| has_col(coords, c) && c > f.col {
            let c = choose|c: usize| has_col(coords, c) && c > f.col;
            assert(cols.contains(c));
        }
        if exists|c: usize| has_col(coords, c) && c < f.col {
            let c = choose|c: usize| has_col(coords, c) && c < f.col;
            assert(cols.contains(c));
        }
        assert(col != f.col) by {
            if col == f.col {
                if other > f.col {
                    assert(cols.contains(other));
                } else {
                    assert(cols.contains(other));
                }
            }
        }
        assert(!coords.contains((f.row, col)));
        lemma_listings(coords, 0, col);
        let rs = col_rows(coords, col);
        let r0 = choose|y: usize| coords.contains((y, col));
        assert(rs.contains(r0));
        assert(rs.contains(rs[0]));
        assert forall|y: usize| coords.contains((y, col)) implies rs[0] <= y by {
            assert(rs.contains(y));
            let k = rs.index_of(y);
            if k > 0 {
                assert(rs[0] < rs[k]);
            }
        }
        assert(nav_frame(state, seq![event], coords).0 == MenuFocus { row: rs[0], col });
        assert forall|c: usize| has_col(coords, c) && c > f.col implies cyclic_step(cols, f.col, 1)
            <= c by {
            assert(cols.contains(c));
        }
        assert forall|c: usize| has_col(coords, c) && c < f.col implies c <= cyclic_step(
            cols,
            f.col,
            -1,
        ) by {
            assert(cols.contains(c));
        }
        if !(exists|c: usize| has_col(coords, c) && c > f.col) {
            assert forall|c: usize| has_col(coords, c) implies cyclic_step(cols, f.col, 1) <= c by {
                assert(cols.contains(c));
            }
        }
        if !(exists|c: usize| has_col(coords, c) && c < f.col) {
            assert forall|c: usize| has_col(coords, c) implies c <= cyclic_step(cols, f.col, -1) by {
                assert(cols.contains(c));
            }
        }
    } else {
        assert(cols.len() <= 1) by {
            if cols.len() > 1 {
                assert(cols.contains(cols[0]));
                assert(cols.contains(cols[1]));
                assert(has_col(coords, cols[0]) && has_col(coords, cols[1]));
                assert(cols[0] < cols[1]);
            }
        }
    }
}

} // verus!

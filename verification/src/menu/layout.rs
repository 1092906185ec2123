//! The grid of buttons a menu exposes to navigation.
use vstd::prelude::*;

verus! {

/// One navigable button: its entity id and what pressing it runs.
#[derive(Clone)]
pub struct ButtonEntry<F> {
    pub entity: u64,
    pub on_press: F,
}

/// Buttons arranged in rows; a row may have any number of columns.
#[derive(Clone)]
pub struct MenuLayout<F> {
    pub rows: Vec<Vec<ButtonEntry<F>>>,
}

/// A button press waiting to be run, by (row, column).
#[derive(Debug, Clone, Copy, Default)]
pub struct PendingButtonPress(pub Option<(usize, usize)>);

impl<F> View for MenuLayout<F> {
    type V = Seq<Seq<ButtonEntry<F>>>;

    open spec fn view(&self) -> Seq<Seq<ButtonEntry<F>>> {
        self.rows@.map_values(|row: Vec<ButtonEntry<F>>| row@)
    }
}

/// The entry built from an (entity, callback) pair.
pub open spec fn entry_of<F>(item: (u64, F)) -> ButtonEntry<F> {
    ButtonEntry { entity: item.0, on_press: item.1 }
}

/// Every (row, column) of a grid, row by row, left to right.
pub open spec fn spec_coords<T>(rows: Seq<Seq<T>>) -> Seq<(usize, usize)>
    decreases rows.len(),
{
    if rows.len() == 0 {
        Seq::empty()
    } else {
        let r: int = rows.len() - 1;
        spec_coords(rows.drop_last()) + Seq::new(
            rows.last().len(),
            |c: int| (r as usize, c as usize),
        )
    }
}

/// Whether (row, col) names a cell of the grid.
pub open spec fn in_grid<T>(rows: Seq<Seq<T>>, row: int, col: int) -> bool {
    0 <= row < rows.len() && 0 <= col < rows[row].len()
}

/// Law: the coordinates a layout lists are exactly its cells, so `get`
/// finds a button at every listed coordinate and at no other.
pub proof fn law_coords_are_cells<T>(rows: Seq<Seq<T>>, row: usize, col: usize)
    requires
        rows.len() <= usize::MAX,
        forall|r: int| 0 <= r < rows.len() ==> #[trigger] rows[r].len() <= usize::MAX,
    ensures
        spec_coords(rows).contains((row, col)) <==> in_grid(rows, row as int, col as int),
    decreases rows.len(),
{
    if rows.len() > 0 {
        let r: int = rows.len() - 1;
        let init = rows.drop_last();
        assert forall|k: int| 0 <= k < init.len() implies #[trigger] init[k].len() <= usize::MAX by {
            assert(init[k] == rows[k]);
        }
        law_coords_are_cells(init, row, col);
        let tail = Seq::new(rows.last().len(), |c: int| (r as usize, c as usize));
        let all = spec_coords(init) + tail;
        if in_grid(rows, row as int, col as int) {
            if row < r {
                assert(in_grid(init, row as int, col as int));
                let k: int = spec_coords(init).index_of((row, col));
                assert(all[k] == (row, col));
            } else {
                assert(all[spec_coords(init).len() + col] == (row, col));
            }
        }
        if all.contains((row, col)) {
            let k = choose|k: int| 0 <= k < all.len() && all[k] == (row, col);
            if k >= spec_coords(init).len() {
                assert(tail[k - spec_coords(init).len()] == (row, col));
            } else {
                assert(spec_coords(init)[k] == (row, col));
            }
        }
    }
}

impl<F> MenuLayout<F> {
    /// An empty layout.
    pub fn new() -> (l: Self)
        ensures
            l@ == Seq::<Seq<ButtonEntry<F>>>::empty(),
    {
        MenuLayout { rows: Vec::new() }
    }

    /// Appends each item as a row of its own, in order.
    pub fn add_column(self, items: Vec<(u64, F)>) -> (l: Self)
        ensures
            l@ == self@ + items@.map_values(|it: (u64, F)| seq![entry_of(it)]),
    {
        let mut rows = self.rows;
        let mut items = items;
        let ghost start = rows@.map_values(|row: Vec<ButtonEntry<F>>| row@);
        let ghost all = items@;
        let n: usize = items.len();
        let mut i: usize = 0;
        while items.len() > 0
            invariant
                i + items.len() == all.len(),
                all.len() == n,
                items@ == all.skip(i as int),
                rows@.map_values(|row: Vec<ButtonEntry<F>>| row@) == start + all.take(
                    i as int,
                ).map_values(|it: (u64, F)| seq![entry_of(it)]),
            decreases items.len(),
        {
            let (entity, on_press) = items.remove(0);
            let ghost prev_rows = rows@;
            let mut row: Vec<ButtonEntry<F>> = Vec::new();
            row.push(ButtonEntry { entity, on_press });
            rows.push(row);
            proof {
                assert(all.take(i + 1) == all.take(i as int).push(all[i as int]));
                assert(rows@.map_values(|row: Vec<ButtonEntry<F>>| row@) == prev_rows.map_values(
                    |row: Vec<ButtonEntry<F>>| row@,
                ).push(seq![entry_of(all[i as int])]));
                assert(all.skip(i + 1) == all.skip(i as int).drop_first());
            }
            i += 1;
        }
        proof {
            assert(all.take(i as int) == all);
        }
        MenuLayout { rows }
    }

    /// Appends the items as one new row, in order.
    pub fn add_row(self, items: Vec<(u64, F)>) -> (l: Self)
        ensures
            l@ == self@.push(items@.map_values(|it: (u64, F)| entry_of(it))),
    {
        let mut rows = self.rows;
        let mut items = items;
        let ghost all = items@;
        let n: usize = items.len();
        let mut row: Vec<ButtonEntry<F>> = Vec::new();
        let mut i: usize = 0;
        while items.len() > 0
            invariant
                i + items.len() == all.len(),
                all.len() == n,
                items@ == all.skip(i as int),
                row@ == all.take(i as int).map_values(|it: (u64, F)| entry_of(it)),
            decreases items.len(),
        {
            let (entity, on_press) = items.remove(0);
            row.push(ButtonEntry { entity, on_press });
            proof {
                assert(all.take(i + 1) == all.take(i as int).push(all[i as int]));
                assert(all.skip(i + 1) == all.skip(i as int).drop_first());
            }
            i += 1;
        }
        proof {
            assert(all.take(i as int) == all);
        }
        let ghost prev = rows@;
        rows.push(row);
        proof {
            assert(rows@.map_values(|row: Vec<ButtonEntry<F>>| row@) == prev.map_values(
                |row: Vec<ButtonEntry<F>>| row@,
            ).push(all.map_values(|it: (u64, F)| entry_of(it))));
        }
        MenuLayout { rows }
    }

    /// The entry at (row, col), if there is one.
    pub fn get(&self, row: usize, col: usize) -> (r: Option<&ButtonEntry<F>>)
        ensures
            r == (if in_grid(self@, row as int, col as int) {
                Some(&self@[row as int][col as int])
            } else {
                None
            }),
    {
        if row < self.rows.len() {
            let r = &self.rows[row];
            if col < r.len() {
                return Some(&r[col]);
            }
        }
        None
    }

    /// Every (row, column) of the layout, row by row, left to right.
    pub fn coords(&self) -> (r: Vec<(usize, usize)>)
        ensures
            r@ == spec_coords(self@),
    {
        let mut out: Vec<(usize, usize)> = Vec::new();
        let mut r: usize = 0;
        while r < self.rows.len()
            invariant
                r <= self.rows.len(),
                out@ == spec_coords(self@.take(r as int)),
            decreases self.rows.len() - r,
        {
            let row = &self.rows[r];
            let mut c: usize = 0;
            let ghost base = out@;
            while c < row.len()
                invariant
                    r < self.rows.len(),
                    row == self.rows@[r as int],
                    c <= row.len(),
                    out@ == base + Seq::new(c as nat, |k: int| (r, k as usize)),
                decreases row.len() - c,
            {
                out.push((r, c));
                proof {
                    assert(base + Seq::new((c + 1) as nat, |k: int| (r, k as usize)) == (base
                        + Seq::new(c as nat, |k: int| (r, k as usize))).push((r, c)));
                }
                c += 1;
            }
            proof {
                let v = self@;
                assert(v.take(r + 1).drop_last() == v.take(r as int));
                assert(v.take(r + 1).last() == row@);
            }
            r += 1;
        }
        proof {
            assert(self@.take(self.rows.len() as int) == self@);
        }
        out
    }

    /// Removes every row.
    pub fn clear(&mut self)
        ensures
            final(self)@ == Seq::<Seq<ButtonEntry<F>>>::empty(),
    {
        self.rows.clear();
    }
}

impl<F> Default for MenuLayout<F> {
    fn default() -> (l: Self)
        ensures
            l@ == Seq::<Seq<ButtonEntry<F>>>::empty(),
    {
        MenuLayout { rows: Vec::new() }
    }
}

} // verus!

use vstd::prelude::*;

use crate::types::{day_of_row, occupies, Class, Day, ROWS};

verus! {

/// The label of a cell after laying out `cs` in order: the label of the last
/// class that occupies the cell, or the empty label when none does.
pub open spec fn cell_label(cs: Seq<Class>, row: int, col: int) -> Seq<char>
    decreases cs.len(),
{
    if cs.len() == 0 {
        Seq::empty()
    } else if occupies(cs.last(), row, col) {
        cs.last().short_name@
    } else {
        cell_label(cs.drop_last(), row, col)
    }
}

/// The whole grid for `cs`: five rows (`A, B, C, D, I`) of eight periods.
pub open spec fn grid_of(cs: Seq<Class>) -> Seq<Seq<Seq<char>>> {
    Seq::new(5, |r: int| Seq::new(8, |c: int| cell_label(cs, r, c)))
}

/// The labels of a grid as a sequence of rows.
pub open spec fn grid_view(p: [[String; 8]; 5]) -> Seq<Seq<Seq<char>>> {
    Seq::new(5, |r: int| Seq::new(8, |c: int| p@[r]@[c]@))
}

/// Whether `days` holds `d`.
pub(crate) fn has_day(days: &Vec<Day>, d: Day) -> (r: bool)
    ensures
        r == days@.contains(d),
{
    let mut i: usize = 0;
    while i < days.len()
        invariant
            i <= days@.len(),
            forall|j: int| 0 <= j < i ==> days@[j] != d,
        decreases days@.len() - i,
    {
        if days[i] == d {
            return true;
        }
        i = i + 1;
    }
    false
}

/// The day that labels grid row `row`.
fn day_at(row: usize) -> (d: Day)
    requires
        row < ROWS,
    ensures
        d == day_of_row(row as int),
{
    if row == 0 {
        Day::A
    } else if row == 1 {
        Day::B
    } else if row == 2 {
        Day::C
    } else if row == 3 {
        Day::D
    } else {
        Day::I
    }
}

/// Lays the classes out on the grid in their given order: each class writes
/// its label into every cell of its days and periods, so where two classes
/// claim one cell the later one wins. A class whose days hold `I` occupies
/// all five rows.
pub fn generate_path(classes: &Vec<Class>) -> (r: [[String; 8]; 5])
    ensures
        grid_view(r) == grid_of(classes@),
{
    let mut g: [[String; 8]; 5] = [
        [String::new(), String::new(), String::new(), String::new(), String::new(), String::new(), String::new(), String::new()],
        [String::new(), String::new(), String::new(), String::new(), String::new(), String::new(), String::new(), String::new()],
        [String::new(), String::new(), String::new(), String::new(), String::new(), String::new(), String::new(), String::new()],
        [String::new(), String::new(), String::new(), String::new(), String::new(), String::new(), String::new(), String::new()],
        [String::new(), String::new(), String::new(), String::new(), String::new(), String::new(), String::new(), String::new()],
    ];
    let n = classes.len();
    for k in 0..n
        invariant
            n == classes@.len(),
            forall|r: int, c: int|
                0 <= r < 5 && 0 <= c < 8 ==> #[trigger] g@[r]@[c]@ == cell_label(
                    classes@.take(k as int),
                    r,
                    c,
                ),
    {
        let cls = &classes[k];
        proof {
            assert(classes@.take(k + 1).drop_last() =~= classes@.take(k as int));
            assert(classes@.take(k + 1).last() == *cls);
        }
        let every = has_day(&cls.days, Day::I);
        for row in 0..ROWS
            invariant
                n == classes@.len(),
                k < n,
                *cls == classes@[k as int],
                every == cls.days@.contains(Day::I),
                classes@.take(k + 1).drop_last() == classes@.take(k as int),
                classes@.take(k + 1).last() == *cls,
                forall|r: int, c: int|
                    0 <= r < 5 && 0 <= c < 8 ==> #[trigger] g@[r]@[c]@ == if r < row {
                        cell_label(classes@.take(k + 1), r, c)
                    } else {
                        cell_label(classes@.take(k as int), r, c)
                    },
        {
            let on_row = every || has_day(&cls.days, day_at(row));
            if on_row {
                let m_len = cls.mods.len();
                for j in 0..m_len
                    invariant
                        n == classes@.len(),
                        k < n,
                        row < 5,
                        m_len == cls.mods@.len(),
                        *cls == classes@[k as int],
                        cls.days@.contains(Day::I) || cls.days@.contains(day_of_row(row as int)),
                        classes@.take(k + 1).drop_last() == classes@.take(k as int),
                        classes@.take(k + 1).last() == *cls,
                        forall|r: int, c: int|
                            0 <= r < 5 && 0 <= c < 8 ==> #[trigger] g@[r]@[c]@ == if r < row {
                                cell_label(classes@.take(k + 1), r, c)
                            } else if r == row && cls.mods@.take(j as int).contains(
                                (c + 1) as u8,
                            ) {
                                cls.short_name@
                            } else {
                                cell_label(classes@.take(k as int), r, c)
                            },
                {
                    let m = cls.mods[j];
                    proof {
                        assert(cls.mods@.take(j + 1) =~= cls.mods@.take(j as int).push(m));
                    }
                    let ghost before = g;
                    if 1 <= m && m <= 8 {
                        let label = cls.short_name.clone();
                        g[row][(m - 1) as usize] = label;
                    }
                    proof {
                        assert forall|r: int, c: int| 0 <= r < 5 && 0 <= c < 8 implies g@[r]@[c]@
                            == if r < row {
                            cell_label(classes@.take(k + 1), r, c)
                        } else if r == row && cls.mods@.take(j + 1).contains((c + 1) as u8) {
                            cls.short_name@
                        } else {
                            cell_label(classes@.take(k as int), r, c)
                        } by {
                            let x = (c + 1) as u8;
                            assert(x as int == c + 1);
                            if cls.mods@.take(j as int).contains(x) {
                                let t = choose|t: int|
                                    0 <= t < j && #[trigger] cls.mods@.take(j as int)[t] == x;
                                assert(cls.mods@.take(j + 1)[t] == x);
                            }
                            if x == m {
                                assert(cls.mods@.take(j + 1)[j as int] == x);
                            }
                            if cls.mods@.take(j + 1).contains(x) {
                                let t = choose|t: int|
                                    0 <= t < j + 1 && #[trigger] cls.mods@.take(j + 1)[t] == x;
                                if t < j {
                                    assert(cls.mods@.take(j as int)[t] == x);
                                }
                            }
                            if r == row && x == m {
                                assert(c == m - 1);
                                assert(g@[r]@[c] == cls.short_name);
                            } else {
                                assert(g@[r]@[c]@ == before@[r]@[c]@);
                            }
                        }
                    }
                }
                proof {
                    assert(cls.mods@.take(m_len as int) =~= cls.mods@);
                }
            }
        }
    }
    proof {
        assert(classes@.take(n as int) =~= classes@);
        assert(grid_view(g) =~~= grid_of(classes@));
    }
    g
}

/// Generation is deterministic: two grids that both meet the contract of
/// `generate_path` for the same classes hold the same labels.
pub proof fn lemma_generation_deterministic(
    cs: Seq<Class>,
    p: [[String; 8]; 5],
    q: [[String; 8]; 5],
)
    requires
        grid_view(p) == grid_of(cs),
        grid_view(q) == grid_of(cs),
    ensures
        grid_view(p) == grid_view(q),
{
}

/// The grid has five rows of eight cells whatever the classes, and with no
/// classes every cell is empty.
pub proof fn lemma_grid_shape(cs: Seq<Class>)
    ensures
        grid_of(cs).len() == 5,
        forall|r: int| 0 <= r < 5 ==> (#[trigger] grid_of(cs)[r]).len() == 8,
        cs.len() == 0 ==> forall|r: int, c: int|
            0 <= r < 5 && 0 <= c < 8 ==> (#[trigger] grid_of(cs)[r][c]).len() == 0,
{
}

/// A class on day `I` alone and in period `k` alone puts its label in column
/// `k` of every row.
pub proof fn lemma_wildcard_fills_every_row(c: Class, k: u8)
    requires
        c.days@ == seq![Day::I],
        c.mods@ == seq![k],
        1 <= k <= 8,
    ensures
        forall|r: int| 0 <= r < 5 ==> (#[trigger] grid_of(seq![c])[r])[k - 1] == c.short_name@,
{
    assert forall|r: int| 0 <= r < 5 implies (#[trigger] grid_of(seq![c])[r])[k - 1]
        == c.short_name@ by {
        assert(c.days@[0] == Day::I);
        assert(c.mods@[0] == ((k - 1) + 1) as u8);
        assert(occupies(seq![c].last(), r, k - 1));
    }
}

/// Where two classes both claim period 3 of day `A`, the cell holds the label
/// of the later one.
pub proof fn lemma_last_write_wins(a: Class, b: Class)
    requires
        a.days@.contains(Day::A),
        a.mods@.contains(3u8),
        b.days@.contains(Day::A),
        b.mods@.contains(3u8),
    ensures
        grid_of(seq![a, b])[0][2] == b.short_name@,
        a.short_name@ != b.short_name@ ==> grid_of(seq![a, b])[0][2] != a.short_name@,
{
    assert(seq![a, b].last() == b);
    assert(occupies(b, 0, 2));
}

} // verus!

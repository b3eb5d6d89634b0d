use vstd::prelude::*;

use super::{
    lemma_population_nonneg, lemma_population_over_keys, lemma_population_over_nonneg,
    lemma_prefix_population_bound, lemma_religion_population_nonneg, population_over, Simulation,
};
use super::registry::keys_equal;
use crate::religion::{religion_age, Religion, ReligionKey};

verus! {

/// Whether a religion in a readout is still followed.
#[derive(Debug, Clone, Copy, PartialEq, Eq, Structural)]
pub enum ReligionStatus {
    Active,
    Extinct,
}

/// One line of a readout: a religion's name, living adherents, status,
/// founding and extinction dates, age, and its parent's name.
#[derive(Debug, Clone)]
pub struct ReligionReadout {
    pub name: String,
    pub adherents: u64,
    pub status: ReligionStatus,
    pub founding_date: u32,
    pub extinction_date: Option<u32>,
    pub age: u32,
    pub parent: Option<String>,
}

/// A readout line as plain values: name, adherents, status, founding date,
/// extinction date, age and parent's name.
pub type RowView = (Seq<char>, u64, ReligionStatus, u32, Option<u32>, u32, Option<Seq<char>>);

impl View for ReligionReadout {
    type V = RowView;

    open spec fn view(&self) -> RowView {
        (
            self.name@,
            self.adherents,
            self.status,
            self.founding_date,
            self.extinction_date,
            self.age,
            match self.parent {
                Some(p) => Some(p@),
                None => None,
            },
        )
    }
}

/// What a readout line for `r` holds, with `current_year` and the parent's name `parent_name`.
pub open spec fn row_view_of(r: Religion, current_year: u32, parent_name: Option<Seq<char>>) -> RowView {
    (
        r.spec_name(),
        r.spec_total_population() as u64,
        if r is Active {
            ReligionStatus::Active
        } else {
            ReligionStatus::Extinct
        },
        r.spec_founding_date(),
        r.spec_extinction_date(),
        religion_age(r.spec_founding_date(), r.spec_extinction_date(), current_year),
        parent_name,
    )
}

/// The religion a readout line is made from, the year, and the parent's name.
pub struct ReligionReadoutSource<'a> {
    pub religion: &'a Religion,
    pub current_year: u32,
    pub parent_name: Option<String>,
}

impl ReligionReadout {
    /// The readout line for the source's religion: its living adherents
    /// (none once extinct), its status, its dates, its age up to the current
    /// year or to its extinction, and the given parent name.
    pub fn from(source: ReligionReadoutSource<'_>) -> (r: ReligionReadout)
        requires
            source.religion.population_fits(),
        ensures
            r@ == row_view_of(
                *source.religion,
                source.current_year,
                match source.parent_name {
                    Some(p) => Some(p@),
                    None => None,
                },
            ),
            r.name@ == source.religion.spec_name(),
            r.adherents == source.religion.spec_total_population(),
            (r.status == ReligionStatus::Active) == (source.religion is Active),
            r.founding_date == source.religion.spec_founding_date(),
            r.extinction_date == source.religion.spec_extinction_date(),
            r.parent == source.parent_name,
            ({
                let end = match source.religion.spec_extinction_date() {
                    Some(d) => d,
                    None => source.current_year,
                };
                r.age == if end >= source.religion.spec_founding_date() {
                    end - source.religion.spec_founding_date()
                } else {
                    0
                }
            }),
    {
        let religion = source.religion;
        let adherents = religion.total_population();
        let status = if religion.is_extinct() {
            ReligionStatus::Extinct
        } else {
            ReligionStatus::Active
        };
        let name = religion.name().to_owned();
        ReligionReadout {
            name,
            adherents,
            status,
            founding_date: religion.founding_date(),
            extinction_date: religion.extinction_date(),
            age: religion.age(source.current_year),
            parent: source.parent_name,
        }
    }
}

/// `a` comes no later than `b` in a readout: founded later, or founded in
/// the same year with at least as many adherents.
pub open spec fn row_precedes(a: RowView, b: RowView) -> bool {
    a.3 > b.3 || (a.3 == b.3 && a.1 >= b.1)
}

/// Lines are in readout order exactly when, of any two, the earlier was
/// founded later, or in the same year with at least as many adherents: the
/// founding date decides first, whatever the adherents, and the adherents
/// only between religions of the same year.
pub proof fn lemma_readout_order(rows: Seq<RowView>)
    ensures
        rows_sorted(rows) == (forall|i: int, j: int|
            0 <= i < j < rows.len() ==> #[trigger] rows[i].3 > #[trigger] rows[j].3 || (rows[i].3 == rows[j].3
                && rows[i].1 >= rows[j].1)),
{
}

/// A readout line holds its religion's name, living adherents, status,
/// founding and extinction dates and the given parent name, whether the
/// religion is alive or extinct.
pub proof fn lemma_row_fields(r: Religion, current_year: u32, parent_name: Option<Seq<char>>)
    requires
        r.population_fits(),
    ensures
        ({
            let v = row_view_of(r, current_year, parent_name);
            &&& v.0 == r.spec_name()
            &&& v.1 == r.spec_total_population()
            &&& (v.2 == ReligionStatus::Active) == (r is Active)
            &&& v.3 == r.spec_founding_date()
            &&& v.4 == r.spec_extinction_date()
            &&& v.6 == parent_name
        }),
{
    lemma_religion_population_nonneg(r);
}

/// Readout lines in order: newest religion first, the larger first among
/// religions of the same year.
pub open spec fn rows_sorted(rows: Seq<RowView>) -> bool {
    forall|i: int, j: int| 0 <= i < j < rows.len() ==> row_precedes(#[trigger] rows[i], #[trigger] rows[j])
}

/// Whether a readout line has founding date `date` and `adherents` adherents:
/// the two fields lines are sorted by.
pub open spec fn has_sort_key(date: u32, adherents: u64) -> spec_fn(RowView) -> bool {
    |v: RowView| v.3 == date && v.1 == adherents
}

/// The lines of `rows` that sort as equals under the key (`date`, `adherents`), in order.
pub open spec fn lines_with_key(rows: Seq<RowView>, date: u32, adherents: u64) -> Seq<RowView> {
    rows.filter(has_sort_key(date, adherents))
}

/// The plain values of a list of readout lines.
pub open spec fn row_views(rows: Seq<ReligionReadout>) -> Seq<RowView> {
    rows.map_values(|r: ReligionReadout| r@)
}

/// The name of the first religion in `extinct` with key `key`, if there is one.
pub open spec fn extinct_name(extinct: Seq<(ReligionKey, Religion)>, key: ReligionKey) -> Option<
    Seq<char>,
>
    decreases extinct.len(),
{
    if extinct.len() == 0 {
        None
    } else if extinct[0].0 == key {
        Some(extinct[0].1.spec_name())
    } else {
        extinct_name(extinct.drop_first(), key)
    }
}

/// Number of lines of a readout that show a religion still followed.
pub open spec fn active_rows(rows: Seq<RowView>) -> nat
    decreases rows.len(),
{
    if rows.len() == 0 {
        0
    } else {
        active_rows(rows.drop_last()) + if rows.last().2 == ReligionStatus::Active {
            1nat
        } else {
            0nat
        }
    }
}

/// The sum of `f` over readout lines.
pub open spec fn rows_total(rows: Seq<RowView>, f: spec_fn(RowView) -> int) -> int
    decreases rows.len(),
{
    if rows.len() == 0 {
        0
    } else {
        rows_total(rows.drop_last(), f) + f(rows.last())
    }
}

/// A line's adherents.
pub open spec fn line_adherents() -> spec_fn(RowView) -> int {
    |v: RowView| v.1 as int
}

/// One for a line of a religion still followed, none otherwise.
pub open spec fn line_is_active() -> spec_fn(RowView) -> int {
    |v: RowView| if v.2 == ReligionStatus::Active { 1int } else { 0int }
}

/// The adherents over all lines of a readout.
pub open spec fn rows_adherents(rows: Seq<RowView>) -> int {
    rows_total(rows, line_adherents())
}

/// Taking one line out of a list takes its share out of a sum.
proof fn lemma_rows_total_remove(b: Seq<RowView>, i: int, f: spec_fn(RowView) -> int)
    requires
        0 <= i < b.len(),
    ensures
        rows_total(b, f) == rows_total(b.remove(i), f) + f(b[i]),
    decreases b.len(),
{
    if i == b.len() - 1 {
        assert(b.remove(i) =~= b.drop_last());
    } else {
        let c = b.remove(i);
        assert(c.drop_last() =~= b.drop_last().remove(i));
        assert(c.last() == b.last());
        lemma_rows_total_remove(b.drop_last(), i, f);
    }
}

/// A sum over lines does not depend on their order.
proof fn lemma_rows_total_permutation(a: Seq<RowView>, b: Seq<RowView>, f: spec_fn(RowView) -> int)
    requires
        a.to_multiset() == b.to_multiset(),
    ensures
        rows_total(a, f) == rows_total(b, f),
    decreases a.len(),
{
    broadcast use vstd::seq_lib::group_to_multiset_ensures;

    if a.len() == 0 {
        assert(b.len() == b.to_multiset().len());
        assert(b.len() == 0);
    } else {
        let x = a.last();
        let rest = a.drop_last();
        assert(a =~= rest.push(x));
        assert(a.to_multiset() =~= rest.to_multiset().insert(x));
        assert(b.to_multiset().count(x) > 0);
        assert(b.contains(x));
        let i = choose|i: int| 0 <= i < b.len() && b[i] == x;
        assert(b.remove(i).to_multiset() == b.to_multiset().remove(x));
        assert(rest.to_multiset().insert(x).remove(x) =~= rest.to_multiset());
        lemma_rows_total_permutation(rest, b.remove(i), f);
        lemma_rows_total_remove(b, i, f);
    }
}

/// A sum over two lists of lines one after the other is the sum of their sums.
proof fn lemma_rows_total_concat(a: Seq<RowView>, b: Seq<RowView>, f: spec_fn(RowView) -> int)
    ensures
        rows_total(a + b, f) == rows_total(a, f) + rows_total(b, f),
    decreases b.len(),
{
    if b.len() == 0 {
        assert(a + b =~= a);
    } else {
        assert((a + b).drop_last() =~= a + b.drop_last());
        lemma_rows_total_concat(a, b.drop_last(), f);
    }
}

/// Counting active lines is summing their indicator.
proof fn lemma_active_rows_total(rows: Seq<RowView>)
    ensures
        active_rows(rows) == rows_total(rows, line_is_active()),
    decreases rows.len(),
{
    if rows.len() > 0 {
        lemma_active_rows_total(rows.drop_last());
    }
}

/// No more lines show a religion still followed than there are lines.
proof fn lemma_active_rows_bound(rows: Seq<RowView>)
    ensures
        active_rows(rows) <= rows.len(),
    decreases rows.len(),
{
    if rows.len() > 0 {
        lemma_active_rows_bound(rows.drop_last());
    }
}

/// The totals of a readout: living population, lines, lines of religions
/// still followed, lines of extinct ones.
#[derive(Debug, Clone, Copy, PartialEq, Eq, Structural)]
pub struct ReadoutCounts {
    pub population: u64,
    pub religions: usize,
    pub active: usize,
    pub extinct: usize,
}

/// Number of readout lines that show a religion still followed.
pub fn count_active_rows(rows: &Vec<ReligionReadout>) -> (r: usize)
    ensures
        r == active_rows(row_views(rows@)),
{
    let mut count: usize = 0;
    let mut i: usize = 0;
    while i < rows.len()
        invariant
            i <= rows@.len(),
            count == active_rows(row_views(rows@).take(i as int)),
            count <= i,
        decreases rows@.len() - i,
    {
        proof {
            assert(row_views(rows@).take(i + 1).drop_last() =~= row_views(rows@).take(i as int));
        }
        if rows[i].status == ReligionStatus::Active {
            count = count + 1;
        }
        i = i + 1;
    }
    assert(row_views(rows@).take(rows@.len() as int) =~= row_views(rows@));
    count
}

/// Whether `a` goes before `b` in a readout.
fn precedes(a: &ReligionReadout, b: &ReligionReadout) -> (r: bool)
    ensures
        r == row_precedes(a@, b@),
{
    a.founding_date > b.founding_date || (a.founding_date == b.founding_date && a.adherents
        >= b.adherents)
}

/// Inserting `x` into sorted lines `s` just before the first line that does
/// not go before it leaves every line that ties with `x` ahead of it: the
/// lines of each sort key keep their order, `x` last among its own.
proof fn lemma_insert_keeps_ties(s: Seq<RowView>, p: int, x: RowView, date: u32, adherents: u64)
    requires
        rows_sorted(s),
        0 <= p <= s.len(),
        p < s.len() ==> !row_precedes(s[p], x),
    ensures
        lines_with_key(s.insert(p, x), date, adherents) == if has_sort_key(date, adherents)(x) {
            lines_with_key(s, date, adherents).push(x)
        } else {
            lines_with_key(s, date, adherents)
        },
{
    let pred = has_sort_key(date, adherents);
    let head = s.take(p);
    let tail = s.skip(p);
    assert(s =~= head + tail);
    assert(s.insert(p, x) =~= head + seq![x] + tail);
    Seq::filter_distributes_over_add(head, tail, pred);
    Seq::filter_distributes_over_add(head + seq![x], tail, pred);
    Seq::filter_distributes_over_add(head, seq![x], pred);
    assert(seq![x] =~= Seq::<RowView>::empty().push(x));
    Seq::<RowView>::empty().lemma_filter_push(x, pred);
    assert(Seq::<RowView>::empty().filter(pred) =~= Seq::<RowView>::empty()) by {
        reveal(Seq::filter);
    }
    if pred(x) {
        assert(tail.all(|v: RowView| !pred(v))) by {
            assert forall|q: int| 0 <= q < tail.len() implies !pred(#[trigger] tail[q]) by {
                assert(tail[q] == s[p + q]);
                if q > 0 {
                    assert(row_precedes(s[p], s[p + q]));
                }
            }
        }
        tail.lemma_all_neg_filter_empty(pred);
        assert(tail.filter(pred) =~= Seq::<RowView>::empty());
        assert(s.filter(pred) =~= head.filter(pred));
    }
}

/// Sorts readout lines, newest religion first and the larger first among
/// religions of the same year; lines that tie keep their order.
pub fn sort_rows(rows: Vec<ReligionReadout>) -> (r: Vec<ReligionReadout>)
    ensures
        rows_sorted(row_views(r@)),
        forall|i: int, j: int|
            0 <= i < j < r@.len() ==> #[trigger] r@[i].founding_date > #[trigger] r@[j].founding_date || (r@[i].founding_date
                == r@[j].founding_date && r@[i].adherents >= r@[j].adherents),
        row_views(r@).to_multiset() == row_views(rows@).to_multiset(),
        forall|date: u32, adherents: u64|
            #[trigger] lines_with_key(row_views(r@), date, adherents) == lines_with_key(
                row_views(rows@),
                date,
                adherents,
            ),
{
    broadcast use vstd::seq_lib::group_to_multiset_ensures;

    let mut sorted: Vec<ReligionReadout> = Vec::new();
    let mut rest = rows;
    let ghost input = row_views(rest@);
    let mut taken: usize = 0;
    assert(input.len() == rest.len());
    proof {
        assert(input.skip(0) =~= input);
        assert(input.take(0) =~= Seq::<RowView>::empty());
    }
    while rest.len() > 0
        invariant
            taken + row_views(rest@).len() == input.len(),
            input.len() <= usize::MAX,
            row_views(rest@) == input.skip(taken as int),
            rows_sorted(row_views(sorted@)),
            row_views(sorted@).to_multiset() == input.take(taken as int).to_multiset(),
            forall|date: u32, adherents: u64|
                #[trigger] lines_with_key(row_views(sorted@), date, adherents) == lines_with_key(
                    input.take(taken as int),
                    date,
                    adherents,
                ),
        decreases rest@.len(),
    {
        let ghost before_rest = rest@;
        let x = rest.remove(0);
        proof {
            assert(x@ == row_views(before_rest)[0]);
            assert(input.skip(taken as int)[0] == input[taken as int]);
            assert(row_views(rest@) =~= row_views(before_rest).drop_first());
            assert(input.skip(taken as int).drop_first() =~= input.skip(taken + 1));
            assert(row_views(rest@) =~= input.skip(taken + 1));
        }
        // the first line that x must go before
        let mut p: usize = 0;
        while p < sorted.len() && precedes(&sorted[p], &x)
            invariant
                p <= sorted@.len(),
                forall|q: int| 0 <= q < p ==> row_precedes(row_views(sorted@)[q], x@),
            decreases sorted@.len() - p,
        {
            p = p + 1;
        }
        let ghost before_sorted = row_views(sorted@);
        sorted.insert(p, x);
        proof {
            assert(row_views(sorted@) =~= before_sorted.insert(p as int, x@));
            assert forall|i: int, j: int|
                0 <= i < j < row_views(sorted@).len() implies row_precedes(
                #[trigger] row_views(sorted@)[i],
                #[trigger] row_views(sorted@)[j],
            ) by {
                let s = row_views(sorted@);
                if j < p {
                    assert(s[i] == before_sorted[i] && s[j] == before_sorted[j]);
                } else if j == p {
                    assert(s[i] == before_sorted[i]);
                } else if i < p {
                    assert(s[i] == before_sorted[i] && s[j] == before_sorted[j - 1]);
                } else if i == p {
                    // x does not precede sorted[p], so sorted[p] and later come after x
                    assert(s[j] == before_sorted[j - 1]);
                    assert(!row_precedes(before_sorted[p as int], x@));
                    assert(row_precedes(before_sorted[p as int], before_sorted[j - 1]) || j - 1
                        == p);
                } else {
                    assert(s[i] == before_sorted[i - 1] && s[j] == before_sorted[j - 1]);
                }
            }
            assert(input.take(taken + 1) =~= input.take(taken as int).push(input[taken as int]));
            assert forall|date: u32, adherents: u64|
                #[trigger] lines_with_key(row_views(sorted@), date, adherents) == lines_with_key(
                    input.take(taken + 1),
                    date,
                    adherents,
                ) by {
                lemma_insert_keeps_ties(before_sorted, p as int, x@, date, adherents);
                input.take(taken as int).lemma_filter_push(x@, has_sort_key(date, adherents));
            }
            vstd::seq_lib::to_multiset_insert(before_sorted, p as int, x@);
            vstd::seq_lib::to_multiset_build(input.take(taken as int), input[taken as int]);
        }
        taken = taken + 1;
    }
    assert(input.take(taken as int) =~= input);
    proof {
        lemma_readout_order(row_views(sorted@));
        assert forall|i: int, j: int| 0 <= i < j < sorted@.len() implies #[trigger] sorted@[i].founding_date
            > #[trigger] sorted@[j].founding_date || (sorted@[i].founding_date == sorted@[j].founding_date
            && sorted@[i].adherents >= sorted@[j].adherents) by {
            assert(row_views(sorted@)[i] == sorted@[i]@ && row_views(sorted@)[j] == sorted@[j]@);
        }
    }
    sorted
}

impl Simulation {
    /// The name of the religion under `parent_id`: looked up among the
    /// living religions first, then among the extinct ones, first match.
    pub fn lookup_parent_name(&self, parent_id: ReligionKey) -> (r: Option<String>)
        ensures
            match r {
                Some(s) => Some(s@),
                None => None,
            } == self.parent_name_of(parent_id),
    {
        match self.religion(parent_id) {
            Some(religion) => {
                return Some(religion.name().to_owned());
            },
            None => {},
        }
        let extinct = self.extinct_religions();
        assert(extinct@.skip(0) =~= extinct@);
        let mut i: usize = 0;
        while i < extinct.len()
            invariant
                i <= extinct@.len(),
                extinct@ == self.extinct(),
                !self.active().dom().contains(parent_id),
                extinct_name(extinct@, parent_id) == extinct_name(extinct@.skip(i as int), parent_id),
            decreases extinct@.len() - i,
        {
            proof {
                assert(extinct@.skip(i as int).drop_first() =~= extinct@.skip(i + 1));
            }
            if keys_equal(extinct[i].0, parent_id) {
                assert(extinct@.skip(i as int)[0] == extinct@[i as int]);
                assert(extinct@.skip(i as int).len() > 0);
                assert(extinct_name(extinct@.skip(i as int), parent_id) == Some(
                    extinct@[i as int].1.spec_name(),
                ));
                let name = extinct[i].1.name().to_owned();
                assert(name@ == extinct@[i as int].1.spec_name());
                assert(!self.active().dom().contains(parent_id));
                assert(self.parent_name_of(parent_id) == Some(name@));
                return Some(name);
            }
            i = i + 1;
        }
        assert(extinct@.skip(extinct@.len() as int).len() == 0);
        None
    }

    /// The name a readout gives as `parent`'s: a living religion's name, or
    /// else the first extinct religion's with that key, or none.
    pub open spec fn parent_name_of(&self, parent: ReligionKey) -> Option<Seq<char>> {
        if self.active().dom().contains(parent) {
            Some(self.active()[parent].spec_name())
        } else {
            extinct_name(self.extinct(), parent)
        }
    }

    /// The readout lines of the world in the order they are gathered: the
    /// living religions in the order the slot map walks them, then the
    /// extinct ones in the order they died out.
    pub open spec fn gathered_rows(&self) -> Seq<RowView> {
        self.key_order().map_values(|k: ReligionKey| self.row_for(self.active()[k]))
            + self.extinct().map_values(|e: (ReligionKey, Religion)| self.row_for(e.1))
    }

    /// `rows` is the readout of the world: the gathered lines, sorted newest
    /// first and the larger first, lines that tie keeping their gathered order.
    pub open spec fn is_readout(&self, rows: Seq<RowView>) -> bool {
        &&& rows_sorted(rows)
        &&& rows.to_multiset() == self.gathered_rows().to_multiset()
        &&& forall|date: u32, adherents: u64|
            #[trigger] lines_with_key(rows, date, adherents) == lines_with_key(
                self.gathered_rows(),
                date,
                adherents,
            )
    }

    /// What the readout line for `r` holds in this world.
    pub open spec fn row_for(&self, r: Religion) -> RowView {
        row_view_of(
            r,
            self.spec_current_year(),
            match r.spec_parent() {
                Some(p) => self.parent_name_of(p),
                None => None,
            },
        )
    }

    /// One readout line for every religion, living and extinct, newest first
    /// and the larger first among religions of the same year. Lines that tie
    /// keep the order they were gathered in: the living religions in the slot
    /// map's order, then the extinct ones in the order they died out.
    pub fn build_religion_rows(&self) -> (r: Vec<ReligionReadout>)
        requires
            self.wf(),
            self.spec_total_population() <= u64::MAX,
        ensures
            self.is_readout(row_views(r@)),
            forall|i: int, j: int|
                0 <= i < j < r@.len() ==> #[trigger] r@[i].founding_date > #[trigger] r@[j].founding_date || (r@[i].founding_date
                    == r@[j].founding_date && r@[i].adherents >= r@[j].adherents),
            r@.len() == self.active().len() + self.extinct().len(),
    {
        broadcast use vstd::seq_lib::group_to_multiset_ensures;

        let keys = self.religion_keys();
        proof {
            lemma_population_nonneg(self.active());
        }
        let ghost active_rows_spec = keys@.map_values(
            |k: ReligionKey| self.row_for(self.active()[k]),
        );
        let ghost extinct_rows_spec = self.extinct().map_values(
            |e: (ReligionKey, Religion)| self.row_for(e.1),
        );
        let mut rows: Vec<ReligionReadout> = Vec::new();
        let mut i: usize = 0;
        while i < keys.len()
            invariant
                i <= keys@.len(),
                self.wf(),
                self.spec_total_population() <= u64::MAX,
                forall|k: ReligionKey| self.active().dom().contains(k) <==> keys@.contains(k),
                forall|k: ReligionKey|
                    self.active().dom().contains(k) ==> 0
                        <= #[trigger] self.active()[k].spec_total_population()
                        <= self.spec_total_population(),
                active_rows_spec == keys@.map_values(
                    |k: ReligionKey| self.row_for(self.active()[k]),
                ),
                row_views(rows@) == active_rows_spec.take(i as int),
            decreases keys@.len() - i,
        {
            let key = keys[i];
            proof {
                assert(keys@.contains(key)) by {
                    assert(keys@[i as int] == key);
                }
            }
            let religion = match self.religion(key) {
                Some(r) => r,
                None => {
                    proof {
                        assert(false);
                    }
                    return Vec::new();
                },
            };
            let parent_name = match religion.parent() {
                Some(p) => self.lookup_parent_name(p),
                None => None,
            };
            let row = ReligionReadout::from(
                ReligionReadoutSource { religion, current_year: self.current_year(), parent_name },
            );
            let ghost before_rows = rows@;
            rows.push(row);
            proof {
                assert(row@ == self.row_for(self.active()[key]));
                assert(active_rows_spec[i as int] == self.row_for(self.active()[key]));
                assert(row_views(rows@) =~= row_views(before_rows).push(row@));
                assert(active_rows_spec.take(i + 1) =~= active_rows_spec.take(i as int).push(
                    active_rows_spec[i as int],
                ));
                assert(row_views(rows@) =~= active_rows_spec.take(i + 1));
            }
            i = i + 1;
        }
        let extinct = self.extinct_religions();
        let mut j: usize = 0;
        while j < extinct.len()
            invariant
                j <= extinct@.len(),
                extinct@ == self.extinct(),
                self.wf(),
                extinct_rows_spec == self.extinct().map_values(
                    |e: (ReligionKey, Religion)| self.row_for(e.1),
                ),
                row_views(rows@) == active_rows_spec + extinct_rows_spec.take(j as int),
            decreases extinct@.len() - j,
        {
            let religion = &extinct[j].1;
            proof {
                assert(self.extinct()[j as int].1 is Extinct);
            }
            let parent_name = match religion.parent() {
                Some(p) => self.lookup_parent_name(p),
                None => None,
            };
            let row = ReligionReadout::from(
                ReligionReadoutSource { religion, current_year: self.current_year(), parent_name },
            );
            let ghost before_rows = rows@;
            rows.push(row);
            proof {
                assert(row@ == self.row_for(self.extinct()[j as int].1));
                assert(extinct_rows_spec[j as int] == self.row_for(self.extinct()[j as int].1));
                assert(row_views(rows@) =~= row_views(before_rows).push(row@));
                assert(extinct_rows_spec.take(j + 1) =~= extinct_rows_spec.take(j as int).push(
                    extinct_rows_spec[j as int],
                ));
                assert(row_views(rows@) =~= active_rows_spec + extinct_rows_spec.take(j + 1));
            }
            j = j + 1;
        }
        proof {
            assert(active_rows_spec.take(keys@.len() as int) =~= active_rows_spec);
            assert(extinct_rows_spec.take(extinct@.len() as int) =~= extinct_rows_spec);
        }
        let sorted = sort_rows(rows);
        proof {
            assert forall|k: ReligionKey| #[trigger]
                keys@.contains(k) <==> self.active().dom().contains(k) by {}
            keys@.unique_seq_to_set();
            assert(keys@.to_set() =~= self.active().dom());
            assert(row_views(sorted@).len() == row_views(sorted@).to_multiset().len());
        }
        sorted
    }

    /// Over the gathered lines, as many show a religion still followed as
    /// there are living religions, and their adherents add up to the living
    /// population.
    proof fn lemma_gathered_totals(&self, keys: Seq<ReligionKey>)
        requires
            self.wf(),
            self.spec_total_population() <= u64::MAX,
            keys == self.key_order(),
            keys.no_duplicates(),
            forall|k: ReligionKey| self.active().dom().contains(k) <==> keys.contains(k),
        ensures
            rows_total(self.gathered_rows(), line_is_active()) == self.active().len(),
            rows_adherents(self.gathered_rows()) == self.spec_total_population(),
    {
        let living = keys.map_values(|k: ReligionKey| self.row_for(self.active()[k]));
        let dead = self.extinct().map_values(|e: (ReligionKey, Religion)| self.row_for(e.1));
        lemma_rows_total_concat(living, dead, line_is_active());
        lemma_rows_total_concat(living, dead, line_adherents());
        self.lemma_living_totals(keys, keys.len() as int);
        self.lemma_dead_totals(self.extinct().len() as int);
        assert(keys.take(keys.len() as int) =~= keys);
        assert(self.extinct().take(self.extinct().len() as int) =~= self.extinct());
        lemma_population_over_keys(self.active(), keys);
        keys.unique_seq_to_set();
        assert(keys.to_set() =~= self.active().dom());
    }

    /// The first `n` living lines: all active, holding the population of the
    /// first `n` living religions.
    proof fn lemma_living_totals(&self, keys: Seq<ReligionKey>, n: int)
        requires
            self.wf(),
            self.spec_total_population() <= u64::MAX,
            0 <= n <= keys.len(),
            keys.no_duplicates(),
            forall|k: ReligionKey| self.active().dom().contains(k) <==> keys.contains(k),
        ensures
            rows_total(
                keys.take(n).map_values(|k: ReligionKey| self.row_for(self.active()[k])),
                line_is_active(),
            ) == n,
            rows_total(
                keys.take(n).map_values(|k: ReligionKey| self.row_for(self.active()[k])),
                line_adherents(),
            ) == population_over(self.active(), keys.take(n)),
        decreases n,
    {
        let rows = keys.take(n).map_values(|k: ReligionKey| self.row_for(self.active()[k]));
        if n > 0 {
            self.lemma_living_totals(keys, n - 1);
            assert(rows.drop_last() =~= keys.take(n - 1).map_values(
                |k: ReligionKey| self.row_for(self.active()[k]),
            ));
            assert(keys.take(n).drop_last() =~= keys.take(n - 1));
            let k = keys[n - 1];
            assert(keys.contains(k));
            assert(self.active()[k] is Active);
            lemma_prefix_population_bound(self.active(), keys, n);
            lemma_population_over_nonneg(self.active(), keys.take(n - 1));
            lemma_religion_population_nonneg(self.active()[k]);
        }
    }

    /// The first `n` extinct lines: none active, no adherents.
    proof fn lemma_dead_totals(&self, n: int)
        requires
            self.wf(),
            0 <= n <= self.extinct().len(),
        ensures
            rows_total(
                self.extinct().take(n).map_values(|e: (ReligionKey, Religion)| self.row_for(e.1)),
                line_is_active(),
            ) == 0,
            rows_total(
                self.extinct().take(n).map_values(|e: (ReligionKey, Religion)| self.row_for(e.1)),
                line_adherents(),
            ) == 0,
        decreases n,
    {
        let rows = self.extinct().take(n).map_values(|e: (ReligionKey, Religion)| self.row_for(e.1));
        if n > 0 {
            self.lemma_dead_totals(n - 1);
            assert(rows.drop_last() =~= self.extinct().take(n - 1).map_values(
                |e: (ReligionKey, Religion)| self.row_for(e.1),
            ));
            assert(self.extinct()[n - 1].1 is Extinct);
        }
    }

    /// The line of every religion, living or extinct, names the religion it
    /// broke away from, as it is found among the living and then the dead.
    pub proof fn lemma_row_parent(&self, r: Religion)
        ensures
            self.row_for(r).6 == match r.spec_parent() {
                Some(p) => self.parent_name_of(p),
                None => None,
            },
    {
    }

    /// The readout of the world together with its totals: the number of
    /// lines (every living and every extinct religion), how many of them show
    /// a religion still followed, how many do not, and the living population.
    pub fn build_readout(&self) -> (r: (Vec<ReligionReadout>, ReadoutCounts))
        requires
            self.wf(),
            self.spec_total_population() <= u64::MAX,
        ensures
            self.is_readout(row_views(r.0@)),
            forall|i: int, j: int|
            0 <= i < j < r.0@.len() ==> #[trigger] r.0@[i].founding_date > #[trigger] r.0@[j].founding_date || (r.0@[i].founding_date
                == r.0@[j].founding_date && r.0@[i].adherents >= r.0@[j].adherents),

            r.1.religions == r.0@.len(),
            r.1.religions == self.active().len() + self.extinct().len(),
            r.1.active == active_rows(row_views(r.0@)),
            r.1.active == self.active().len(),
            r.1.extinct == r.1.religions - r.1.active,
            r.1.extinct == self.extinct().len(),
            r.1.population == self.spec_total_population(),
            r.1.population == rows_adherents(row_views(r.0@)),
    {
        let rows = self.build_religion_rows();
        let religions = rows.len();
        let active = count_active_rows(&rows);
        let keys = self.religion_keys();
        proof {
            lemma_active_rows_bound(row_views(rows@));
            self.lemma_gathered_totals(keys@);
            lemma_active_rows_total(row_views(rows@));
            lemma_rows_total_permutation(row_views(rows@), self.gathered_rows(), line_is_active());
            lemma_rows_total_permutation(row_views(rows@), self.gathered_rows(), line_adherents());
        }
        let counts = ReadoutCounts {
            population: self.total_population(),
            religions,
            active,
            extinct: religions - active,
        };
        (rows, counts)
    }
}

} // verus!

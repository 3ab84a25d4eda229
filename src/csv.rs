//! A small reader of comma-separated text: a header line of categories,
//! then rows of as many fields. The fields borrow from the source text.
use crate::table::{lemma_position_of, position_of};
use crate::text::{lemma_split_seq_nonempty, split_on, split_seq, str_eq, strs_view};
use vstd::prelude::*;

verus! {

/// Why a `CSV` operation failed.
#[derive(Debug, Clone, Copy, PartialEq, Eq, Structural)]
pub enum CSVError {
    /// The source has no line break, so no header line.
    MissingLineBreak,
    /// A line has another number of fields than there are categories.
    InvalidItemsCount,
    /// A row is shorter than the list of categories.
    InvalidRowLength,
    /// A category is not among the categories.
    InvalidCategory,
    /// Some line of the source could not be read as a row.
    ReadError,
}

/// Comma-separated data: the categories of the header and the rows read so
/// far. Every row has exactly one field per category.
#[derive(Debug)]
pub struct CSV<'t> {
    categories: Vec<&'t str>,
    data: Vec<Vec<&'t str>>,
}

/// The views of rows of string slices.
pub open spec fn rows_view(d: Seq<Vec<&str>>) -> Seq<Seq<Seq<char>>> {
    d.map_values(|r: Vec<&str>| strs_view(r@))
}

/// The first field of each row.
pub open spec fn first_fields(rows: Seq<Seq<Seq<char>>>) -> Seq<Seq<char>> {
    rows.map_values(|r: Seq<Seq<char>>| r[0])
}

/// Each line cut into its comma-separated fields.
pub open spec fn split_rows(lines: Seq<Seq<char>>) -> Seq<Seq<Seq<char>>> {
    lines.map_values(|l: Seq<char>| split_seq(l, ','))
}

/// The positions, in increasing order, of the lines whose number of fields
/// is not `n`.
pub open spec fn mismatched(lines: Seq<Seq<char>>, n: nat) -> Seq<usize>
    decreases lines.len(),
{
    if lines.len() == 0 {
        Seq::<usize>::empty()
    } else {
        let rest = mismatched(lines.drop_last(), n);
        if split_seq(lines.last(), ',').len() != n {
            rest.push((lines.len() - 1) as usize)
        } else {
            rest
        }
    }
}

/// The field at `i` of each row.
pub open spec fn column_of(rows: Seq<Seq<Seq<char>>>, i: int) -> Seq<Seq<char>> {
    rows.map_values(|r: Seq<Seq<char>>| r[i])
}

/// The position of the first line break in `s`, if there is one.
pub open spec fn first_line_break(s: Seq<char>) -> Option<int>
    decreases s.len(),
{
    if s.len() == 0 {
        None
    } else {
        match first_line_break(s.drop_last()) {
            Some(i) => Some(i),
            None => if s.last() == '\n' {
                Some(s.len() - 1)
            } else {
                None
            },
        }
    }
}

proof fn lemma_first_line_break(s: Seq<char>)
    ensures
        match first_line_break(s) {
            Some(i) => 0 <= i < s.len() && s[i] == '\n' && forall|j: int|
                0 <= j < i ==> s[j] != '\n',
            None => forall|j: int| 0 <= j < s.len() ==> s[j] != '\n',
        },
    decreases s.len(),
{
    if s.len() > 0 {
        let init = s.drop_last();
        lemma_first_line_break(init);
        assert(forall|j: int| 0 <= j < init.len() ==> init[j] == s[j]);
    }
}

/// The position of the first line break in `s`, if there is one.
fn find_line_break(s: &str) -> (r: Option<usize>)
    ensures
        match first_line_break(s@) {
            Some(i) => r == Some(i as usize),
            None => r is None,
        },
{
    let n = s.unicode_len();
    let mut i: usize = 0;
    while i < n
        invariant
            n == s@.len(),
            i <= n,
            first_line_break(s@.take(i as int)) is None,
        decreases n - i,
    {
        proof {
            assert(s@.take(i + 1).drop_last() =~= s@.take(i as int));
        }
        if s.get_char(i) == '\n' {
            proof {
                lemma_first_line_break(s@.take(i as int));
                lemma_first_line_break(s@);
                assert(forall|j: int| 0 <= j < i ==> s@.take(i as int)[j] == s@[j]);
            }
            return Some(i);
        }
        i = i + 1;
    }
    assert(s@.take(i as int) =~= s@);
    None
}

/// No line is mismatched exactly when every line has `n` fields.
pub proof fn lemma_mismatched_empty(lines: Seq<Seq<char>>, n: nat)
    ensures
        mismatched(lines, n).len() == 0 <==> forall|j: int|
            0 <= j < lines.len() ==> (#[trigger] split_seq(lines[j], ',')).len() == n,
    decreases lines.len(),
{
    if lines.len() > 0 {
        let init = lines.drop_last();
        lemma_mismatched_empty(init, n);
        assert(forall|j: int| 0 <= j < init.len() ==> init[j] == lines[j]);
        if mismatched(lines, n).len() == 0 {
            assert forall|j: int| 0 <= j < lines.len() implies (#[trigger] split_seq(lines[j], ',')).len() == n by {
                if j < init.len() {
                    assert(init[j] == lines[j]);
                }
            }
        }
    }
}

impl<'t> CSV<'t> {
    /// The categories, in header order.
    pub closed spec fn cats(&self) -> Seq<Seq<char>> {
        strs_view(self.categories@)
    }

    /// The rows, each a sequence of fields.
    pub closed spec fn rows(&self) -> Seq<Seq<Seq<char>>> {
        rows_view(self.data@)
    }

    /// Every row has one field per category, and at least one field.
    pub closed spec fn wf(&self) -> bool {
        forall|i: int|
            0 <= i < self.data@.len() ==> (#[trigger] self.data@[i])@.len() == self.categories@.len()
                && self.data@[i]@.len() >= 1
    }

    proof fn lemma_rows(&self)
        requires
            self.wf(),
        ensures
            self.rows().len() == self.data@.len(),
            forall|i: int|
                0 <= i < self.rows().len() ==> (#[trigger] self.rows()[i]).len() == self.cats().len()
                    && self.rows()[i].len() >= 1,
    {
    }

    /// A `CSV` with no categories and no rows.
    pub fn new() -> (r: Self)
        ensures
            r.wf(),
            r.cats() == Seq::<Seq<char>>::empty(),
            r.rows() == Seq::<Seq<Seq<char>>>::empty(),
    {
        let r = CSV { categories: Vec::new(), data: Vec::new() };
        assert(r.cats() =~= Seq::<Seq<char>>::empty());
        assert(r.rows() =~= Seq::<Seq<Seq<char>>>::empty());
        r
    }

    /// A `CSV` whose categories are the comma-separated fields of `header`,
    /// with no rows.
    pub fn from(header: &'t str) -> (r: Self)
        ensures
            r.wf(),
            r.cats() == split_seq(header@, ','),
            r.rows() == Seq::<Seq<Seq<char>>>::empty(),
    {
        let categories = split_on(header, ',');
        let r = CSV { categories, data: Vec::new() };
        assert(r.rows() =~= Seq::<Seq<Seq<char>>>::empty());
        r
    }

    /// Reads one line of comma-separated values as a new row. Fails, and
    /// adds nothing, when the line has another number of fields than there
    /// are categories. On success returns the new row.
    pub fn read_line(&mut self, line: &'t str) -> (r: Result<&Vec<&'t str>, CSVError>)
        requires
            old(self).wf(),
        ensures
            final(self).wf(),
            final(self).cats() == old(self).cats(),
            split_seq(line@, ',').len() == old(self).cats().len() ==> {
                &&& r is Ok
                &&& strs_view(r->Ok_0@) == split_seq(line@, ',')
                &&& final(self).rows() == old(self).rows().push(split_seq(line@, ','))
            },
            split_seq(line@, ',').len() != old(self).cats().len() ==> {
                &&& r == Err::<&Vec<&'t str>, CSVError>(CSVError::InvalidItemsCount)
                &&& final(self).rows() == old(self).rows()
            },
    {
        let words = split_on(line, ',');
        proof {
            lemma_split_seq_nonempty(line@, ',');
        }
        if words.len() != self.categories.len() {
            return Err(CSVError::InvalidItemsCount);
        }
        self.data.push(words);
        assert(self.rows() =~= old(self).rows().push(split_seq(line@, ',')));
        let last = self.data.len() - 1;
        Ok(&self.data[last])
    }

    /// Reads every line of `src` (cut at each `'\n'`) as a row, or none of
    /// them: when some line has another number of fields than there are
    /// categories, nothing is read and the positions of all such lines are
    /// returned. On success returns the number of rows.
    pub fn read_str(&mut self, src: &'t str) -> (r: Result<usize, Vec<usize>>)
        requires
            old(self).wf(),
        ensures
            final(self).wf(),
            final(self).cats() == old(self).cats(),
            ({
                let lines = split_seq(src@, '\n');
                let bad = mismatched(lines, old(self).cats().len());
                &&& bad.len() == 0 ==> {
                    &&& final(self).rows() == old(self).rows() + split_rows(lines)
                    &&& r is Ok
                    &&& r->Ok_0 == final(self).rows().len()
                }
                &&& bad.len() > 0 ==> {
                    &&& final(self).rows() == old(self).rows()
                    &&& r is Err
                    &&& r->Err_0@ == bad
                }
            }),
    {
        let lines: Vec<&'t str> = split_on(src, '\n');
        let ghost lv = strs_view(lines@);
        let ghost n = self.cats().len();
        let mut lines_vec: Vec<&'t str> = Vec::new();
        let mut err_vec: Vec<usize> = Vec::new();
        let mut ok = true;
        let mut i: usize = 0;
        while i < lines.len()
            invariant
                lv == strs_view(lines@),
                n == self.cats().len(),
                n == self.categories@.len(),
                i <= lines@.len(),
                err_vec@ == mismatched(lv.take(i as int), n),
                ok == (err_vec@.len() == 0),
                ok ==> strs_view(lines_vec@) == lv.take(i as int),
            decreases lines@.len() - i,
        {
            let line = lines[i];
            let split_line = split_on(line, ',');
            proof {
                assert(lv.take(i + 1).drop_last() =~= lv.take(i as int));
                assert(lv.take(i + 1).last() == line@);
            }
            if split_line.len() != self.categories.len() {
                ok = false;
                err_vec.push(i);
            } else {
                lines_vec.push(line);
                assert(ok ==> strs_view(lines_vec@) =~= lv.take(i + 1));
            }
            i = i + 1;
        }
        assert(lv.take(i as int) =~= lv);
        if !ok {
            return Err(err_vec);
        }
        proof {
            lemma_mismatched_empty(lv, n);
        }
        let mut j: usize = 0;
        while j < lines_vec.len()
            invariant
                strs_view(lines_vec@) == lv,
                forall|k: int| 0 <= k < lv.len() ==> (#[trigger] split_seq(lv[k], ',')).len() == n,
                n == self.cats().len(),
                self.wf(),
                self.cats() == old(self).cats(),
                j <= lines_vec@.len(),
                self.rows() == old(self).rows() + split_rows(lv.take(j as int)),
            decreases lines_vec@.len() - j,
        {
            let line = lines_vec[j];
            assert(line@ == lv[j as int]);
            let _ = self.read_line(line);
            assert(split_rows(lv.take(j + 1)) =~= split_rows(lv.take(j as int)).push(split_seq(line@, ',')));
            j = j + 1;
        }
        assert(lv.take(j as int) =~= lv);
        proof {
            self.lemma_rows();
        }
        Ok(self.data.len())
    }

    /// Reads the lines of `src` (cut at each `'\n'`) as rows, in order,
    /// and stops at the first line that has another number of fields than
    /// there are categories: the lines before it stay read, and its position
    /// is returned. When all are read, returns the number of rows.
    pub fn read_str_sc(&mut self, src: &'t str) -> (r: Result<usize, usize>)
        requires
            old(self).wf(),
        ensures
            final(self).wf(),
            final(self).cats() == old(self).cats(),
            ({
                let lines = split_seq(src@, '\n');
                let n = old(self).cats().len();
                match r {
                    Ok(c) => {
                        &&& forall|j: int| 0 <= j < lines.len() ==> (#[trigger] split_seq(lines[j], ',')).len() == n
                        &&& final(self).rows() == old(self).rows() + split_rows(lines)
                        &&& c == final(self).rows().len()
                    },
                    Err(k) => {
                        &&& k < lines.len()
                        &&& split_seq(lines[k as int], ',').len() != n
                        &&& forall|j: int| 0 <= j < k ==> (#[trigger] split_seq(lines[j], ',')).len() == n
                        &&& final(self).rows() == old(self).rows() + split_rows(lines.take(k as int))
                    },
                }
            }),
    {
        let lines: Vec<&'t str> = split_on(src, '\n');
        let ghost lv = strs_view(lines@);
        let ghost n = self.cats().len();
        let mut i: usize = 0;
        while i < lines.len()
            invariant
                lv == strs_view(lines@),
                lv == split_seq(src@, '\n'),
                n == old(self).cats().len(),
                self.wf(),
                self.cats() == old(self).cats(),
                i <= lines@.len(),
                forall|j: int| 0 <= j < i ==> (#[trigger] split_seq(lv[j], ',')).len() == n,
                self.rows() == old(self).rows() + split_rows(lv.take(i as int)),
            decreases lines@.len() - i,
        {
            let line = lines[i];
            assert(line@ == lv[i as int]);
            match self.read_line(line) {
                Err(_) => {
                    return Err(i);
                },
                _ => {},
            }
            assert(split_rows(lv.take(i + 1)) =~= split_rows(lv.take(i as int)).push(split_seq(line@, ',')));
            i = i + 1;
        }
        assert(lv.take(i as int) =~= lv);
        proof {
            self.lemma_rows();
        }
        Ok(self.data.len())
    }

    /// Reads `src`: its first line is the header, the lines after it (cut
    /// at each `'\n'`) are rows. Fails when `src` has no line break, or when
    /// some row has another number of fields than the header.
    pub fn from_str(src: &'t str) -> (r: Result<Self, CSVError>)
        ensures
            match first_line_break(src@) {
                None => r == Err::<Self, CSVError>(CSVError::MissingLineBreak),
                Some(i) => {
                    let header = split_seq(src@.take(i), ',');
                    let lines = split_seq(src@.skip(i + 1), '\n');
                    if mismatched(lines, header.len()).len() == 0 {
                        &&& r is Ok
                        &&& r->Ok_0.wf()
                        &&& r->Ok_0.cats() == header
                        &&& r->Ok_0.rows() == split_rows(lines)
                    } else {
                        r == Err::<Self, CSVError>(CSVError::ReadError)
                    }
                },
            },
    {
        let index = match find_line_break(src) {
            Some(val) => val,
            None => return Err(CSVError::MissingLineBreak),
        };
        proof {
            lemma_first_line_break(src@);
        }
        let n = src.unicode_len();
        let header = src.substring_char(0, index);
        let body = src.substring_char(index + 1, n);
        assert(header@ =~= src@.take(index as int));
        assert(body@ =~= src@.skip(index + 1));
        let mut csv = CSV::from(header);
        match csv.read_str(body) {
            Ok(_) => {
                assert(csv.rows() =~= split_rows(split_seq(body@, '\n')));
                Ok(csv)
            },
            Err(_) => Err(CSVError::ReadError),
        }
    }

    /// The position of `category` among the categories, if it is one.
    fn category_index(&self, category: &str) -> (r: Option<usize>)
        ensures
            r == position_of(self.cats(), category@),
            self.cats().len() <= usize::MAX,
    {
        let ghost cats = self.cats();
        let mut i: usize = 0;
        while i < self.categories.len()
            invariant
                cats == self.cats(),
                cats.len() == self.categories@.len(),
                i <= self.categories@.len(),
                position_of(cats.take(i as int), category@) is None,
            decreases self.categories@.len() - i,
        {
            proof {
                assert(cats.take(i + 1).drop_last() =~= cats.take(i as int));
            }
            assert(cats[i as int] == self.categories@[i as int]@);
            if str_eq(self.categories[i], category) {
                proof {
                    lemma_position_of(cats.take(i as int), category@);
                    lemma_position_of(cats, category@);
                    assert(forall|j: int| 0 <= j < i ==> cats.take(i as int)[j] == cats[j]);
                }
                return Some(i);
            }
            i = i + 1;
        }
        assert(cats.take(i as int) =~= cats);
        None
    }

    /// The first row whose first field is `id`, if any.
    pub fn get_row_from_id(&self, id: &str) -> (r: Option<&Vec<&'t str>>)
        requires
            self.wf(),
        ensures
            match position_of(first_fields(self.rows()), id@) {
                Some(i) => r is Some && strs_view(r->0@) == self.rows()[i as int],
                None => r is None,
            },
    {
        let ghost ids = first_fields(self.rows());
        let mut i: usize = 0;
        while i < self.data.len()
            invariant
                self.wf(),
                ids == first_fields(self.rows()),
                ids.len() == self.data@.len(),
                i <= self.data@.len(),
                position_of(ids.take(i as int), id@) is None,
            decreases self.data@.len() - i,
        {
            proof {
                assert(ids.take(i + 1).drop_last() =~= ids.take(i as int));
                assert(ids[i as int] == self.data@[i as int]@[0]@);
            }
            if str_eq(self.data[i][0], id) {
                proof {
                    lemma_position_of(ids.take(i as int), id@);
                    lemma_position_of(ids, id@);
                    assert(forall|j: int| 0 <= j < i ==> ids.take(i as int)[j] == ids[j]);
                }
                return Some(&self.data[i]);
            }
            i = i + 1;
        }
        assert(ids.take(i as int) =~= ids);
        None
    }

    /// The field of `row` under `category`. `row` need not be one of the
    /// rows read; it may be longer than the list of categories, not shorter.
    pub fn get_item(&self, category: &str, row: &Vec<&'t str>) -> (r: Result<&'t str, &'static str>)
        ensures
            match position_of(self.cats(), category@) {
                None => r is Err && r->Err_0@ == "Invalid category (category not in categories vector)."@,
                Some(i) => if row@.len() < self.cats().len() {
                    r is Err && r->Err_0@ == "Invalid row vector (row's length is not valid)."@
                } else {
                    r is Ok && r->Ok_0@ == row@[i as int]@
                },
            },
    {
        let index: usize = match self.category_index(category) {
            Some(val) => val,
            None => return Err("Invalid category (category not in categories vector)."),
        };
        proof {
            assert(self.cats().len() == self.categories@.len());
            lemma_position_of(self.cats(), category@);
        }
        if row.len() < self.categories.len() {
            return Err("Invalid row vector (row's length is not valid).");
        }
        Ok(row[index])
    }

    /// The field under `category` of every row, in row order.
    pub fn list_category(&self, category: &str) -> (r: Result<Vec<&'t str>, &'static str>)
        requires
            self.wf(),
        ensures
            match position_of(self.cats(), category@) {
                None => r is Err && r->Err_0@ == "Invalid category (category not in categories vector)."@,
                Some(i) => r is Ok && strs_view(r->Ok_0@) == column_of(self.rows(), i as int),
            },
    {
        let index: usize = match self.category_index(category) {
            Some(val) => val,
            None => return Err("Invalid category (category not in categories vector)."),
        };
        proof {
            assert(self.cats().len() == self.categories@.len());
            lemma_position_of(self.cats(), category@);
        }
        let mut output: Vec<&'t str> = Vec::new();
        let mut k: usize = 0;
        while k < self.data.len()
            invariant
                self.wf(),
                index < self.categories@.len(),
                index == position_of(self.cats(), category@)->0,
                k <= self.data@.len(),
                strs_view(output@) == column_of(self.rows(), index as int).take(k as int),
            decreases self.data@.len() - k,
        {
            let item = self.data[k][index];
            assert(self.rows()[k as int] == strs_view(self.data@[k as int]@));
            assert(item@ == column_of(self.rows(), index as int)[k as int]);
            let ghost prev = output@;
            output.push(item);
            assert(strs_view(output@) =~= strs_view(prev).push(item@));
            assert(column_of(self.rows(), index as int).take(k + 1) =~= column_of(
                self.rows(),
                index as int,
            ).take(k as int).push(item@));
            k = k + 1;
        }
        assert(column_of(self.rows(), index as int).take(k as int) =~= column_of(self.rows(), index as int));
        Ok(output)
    }

    /// The fields under each of `categories`, one list per category in the
    /// given order; fails if any of them is not a category.
    pub fn select_categories(&self, categories: Vec<&str>) -> (r: Result<Vec<Vec<&'t str>>, &'static str>)
        requires
            self.wf(),
        ensures
            (forall|k: int| 0 <= k < categories@.len() ==> (#[trigger] position_of(self.cats(), categories@[k]@)) is Some) ==> {
                &&& r is Ok
                &&& r->Ok_0@.len() == categories@.len()
                &&& forall|k: int| 0 <= k < categories@.len() ==> strs_view((#[trigger] r->Ok_0@[k])@)
                    == column_of(self.rows(), position_of(self.cats(), categories@[k]@)->0 as int)
            },
            !(forall|k: int| 0 <= k < categories@.len() ==> (#[trigger] position_of(self.cats(), categories@[k]@)) is Some) ==> {
                r is Err && r->Err_0@ == "Invalid category (category not in categories vector)."@
            },
    {
        let mut output: Vec<Vec<&'t str>> = Vec::new();
        let mut k: usize = 0;
        while k < categories.len()
            invariant
                self.wf(),
                k <= categories@.len(),
                output@.len() == k,
                forall|j: int| 0 <= j < k ==> (#[trigger] position_of(self.cats(), categories@[j]@)) is Some,
                forall|j: int| 0 <= j < k ==> strs_view((#[trigger] output@[j])@)
                    == column_of(self.rows(), position_of(self.cats(), categories@[j]@)->0 as int),
            decreases categories@.len() - k,
        {
            let cat = categories[k];
            match self.list_category(cat) {
                Ok(val) => output.push(val),
                Err(msg) => return Err(msg),
            }
            k = k + 1;
        }
        Ok(output)
    }

    /// The categories, in header order.
    pub fn categories(&self) -> (r: &Vec<&'t str>)
        ensures
            strs_view(r@) == self.cats(),
    {
        &self.categories
    }
}

} // verus!

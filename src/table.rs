//! The element table: names, symbols and masses of the elements, stored as
//! three aligned columns. Row `i` is the element with atomic number `i + 1`.
use crate::text::{ascii_lower, line_seq, lines_of, split_on, split_seq, strs_view};
use vstd::prelude::*;

verus! {

/// The first position of `v` in `col`, if it occurs there.
pub open spec fn position_of(col: Seq<Seq<char>>, v: Seq<char>) -> Option<usize>
    decreases col.len(),
{
    if col.len() == 0 {
        None
    } else {
        match position_of(col.drop_last(), v) {
            Some(i) => Some(i),
            None => if col.last() == v {
                Some((col.len() - 1) as usize)
            } else {
                None
            },
        }
    }
}

/// What `position_of` returns, stated without recursion.
pub proof fn lemma_position_of(col: Seq<Seq<char>>, v: Seq<char>)
    requires
        col.len() <= usize::MAX,
    ensures
        match position_of(col, v) {
            Some(i) => i < col.len() && col[i as int] == v && forall|j: int|
                0 <= j < i ==> col[j] != v,
            None => forall|j: int| 0 <= j < col.len() ==> col[j] != v,
        },
    decreases col.len(),
{
    if col.len() > 0 {
        let init = col.drop_last();
        lemma_position_of(init, v);
        assert(forall|j: int| 0 <= j < init.len() ==> init[j] == col[j]);
    }
}

/// The views of a column of owned strings.
pub open spec fn column_view(c: Seq<String>) -> Seq<Seq<char>> {
    c.map_values(|x: String| x@)
}

/// Why an element table could not be loaded.
#[derive(Debug, PartialEq, Eq, Clone, Copy)]
pub enum LoadError {
    /// The source could not be read.
    Unreadable,
    /// The data row at this position (the header not counted) has fewer
    /// than four fields.
    MalformedRow(usize),
    /// The mass field of the data row at this position is not a number.
    InvalidMass(usize),
}

/// The data rows of a table source, each cut into its fields: the source is
/// lower-cased, cut into lines, and the header line is left out.
pub open spec fn source_rows(src: Seq<char>) -> Seq<Seq<Seq<char>>> {
    let lines = line_seq(src.map_values(|c: char| ascii_lower(c)));
    let rows = if lines.len() == 0 {
        lines
    } else {
        lines.drop_first()
    };
    rows.map_values(|r: Seq<char>| split_seq(r, ','))
}

/// Holds the element data in column-major order: names, symbols and masses
/// (the mass as the text of its field). The atomic number is not held: it is
/// the row's index plus one.
#[derive(Debug)]
pub struct ElementTable {
    length: usize,
    data: (Vec<String>, Vec<String>, Vec<String>),
}

impl ElementTable {
    /// The three columns have one entry per element.
    pub closed spec fn wf(&self) -> bool {
        &&& self.data.0@.len() == self.length
        &&& self.data.1@.len() == self.length
        &&& self.data.2@.len() == self.length
    }

    pub closed spec fn len_spec(&self) -> nat {
        self.length as nat
    }

    pub closed spec fn names(&self) -> Seq<Seq<char>> {
        column_view(self.data.0@)
    }

    pub closed spec fn symbols(&self) -> Seq<Seq<char>> {
        column_view(self.data.1@)
    }

    pub closed spec fn masses(&self) -> Seq<Seq<char>> {
        column_view(self.data.2@)
    }

    /// The lengths of the three columns.
    pub proof fn lemma_wf_lens(&self)
        requires
            self.wf(),
        ensures
            self.names().len() == self.len_spec(),
            self.symbols().len() == self.len_spec(),
            self.masses().len() == self.len_spec(),
            self.len_spec() <= usize::MAX,
    {
    }

    /// Reads a table from delimited text: a header line, then one line per
    /// element of the form `ordinal,name,symbol,mass`. The whole text is
    /// lower-cased first. Fails on the first data row with fewer than four
    /// fields.
    pub fn from_csv_text(src: &str) -> (r: Result<ElementTable, LoadError>)
        ensures
            ({
                let rows = source_rows(src@);
                match r {
                    Ok(t) => {
                        &&& t.wf()
                        &&& t.len_spec() == rows.len()
                        &&& forall|k: int| 0 <= k < rows.len() ==> #[trigger] rows[k].len() >= 4
                        &&& t.names() == Seq::new(rows.len(), |k: int| rows[k][1])
                        &&& t.symbols() == Seq::new(rows.len(), |k: int| rows[k][2])
                        &&& t.masses() == Seq::new(rows.len(), |k: int| rows[k][3])
                    },
                    Err(LoadError::MalformedRow(k)) => {
                        &&& k < rows.len()
                        &&& rows[k as int].len() < 4
                        &&& forall|j: int| 0 <= j < k ==> #[trigger] rows[j].len() >= 4
                    },
                    Err(_) => false,
                }
            }),
    {
        let lower = src.to_ascii_lowercase();
        let lines = lines_of(lower.as_str());
        let ghost rows = source_rows(src@);
        let mut names: Vec<String> = Vec::new();
        let mut symbols: Vec<String> = Vec::new();
        let mut masses: Vec<String> = Vec::new();
        let mut k: usize = 1;
        while k < lines.len()
            invariant
                strs_view(lines@) == line_seq(lower@),
                lower@ == src@.map_values(|c: char| ascii_lower(c)),
                rows == source_rows(src@),
                1 <= k,
                lines@.len() == 0 ==> rows.len() == 0 && k == 1,
                lines@.len() > 0 ==> rows.len() == lines@.len() - 1 && k <= lines@.len(),
                names@.len() == k - 1,
                symbols@.len() == k - 1,
                masses@.len() == k - 1,
                forall|j: int| 0 <= j < k - 1 ==> #[trigger] rows[j].len() >= 4,
                forall|j: int| 0 <= j < k - 1 ==> #[trigger] names@[j]@ == rows[j][1],
                forall|j: int| 0 <= j < k - 1 ==> #[trigger] symbols@[j]@ == rows[j][2],
                forall|j: int| 0 <= j < k - 1 ==> #[trigger] masses@[j]@ == rows[j][3],
            decreases lines@.len() - k,
        {
            let entry = split_on(lines[k], ',');
            assert(rows[k - 1] == split_seq(lines@[k as int]@, ','));
            if entry.len() < 4 {
                return Err(LoadError::MalformedRow(k - 1));
            }
            names.push(entry[1].to_owned());
            symbols.push(entry[2].to_owned());
            masses.push(entry[3].to_owned());
            k = k + 1;
        }
        assert(names@.len() == rows.len());
        let length = names.len();
        let t = ElementTable { length, data: (names, symbols, masses) };
        assert(t.names() =~= Seq::new(rows.len(), |k: int| rows[k][1]));
        assert(t.symbols() =~= Seq::new(rows.len(), |k: int| rows[k][2]));
        assert(t.masses() =~= Seq::new(rows.len(), |k: int| rows[k][3]));
        Ok(t)
    }

    /// The first index at which `column` holds `val`, if any.
    pub fn column_get_idx(column: &Vec<String>, val: String) -> (r: Option<usize>)
        ensures
            r == position_of(column_view(column@), val@),
    {
        let ghost col = column_view(column@);
        let mut i: usize = 0;
        while i < column.len()
            invariant
                col == column_view(column@),
                i <= column@.len(),
                position_of(col.take(i as int), val@) is None,
            decreases column@.len() - i,
        {
            proof {
                assert(col.take(i + 1).drop_last() =~= col.take(i as int));
            }
            if column[i] == val {
                proof {
                    lemma_position_of(col.take(i as int), val@);
                    lemma_position_of(col, val@);
                    assert(col[i as int] == val@);
                    assert(forall|j: int| 0 <= j < i ==> col.take(i as int)[j] == col[j]);
                }
                return Some(i);
            }
            i = i + 1;
        }
        assert(col.take(i as int) =~= col);
        None
    }

    /// The index of the element whose symbol is `symbol`, if any.
    pub fn find_index(&self, symbol: &str) -> (r: Option<usize>)
        ensures
            r == position_of(self.symbols(), symbol@),
    {
        ElementTable::column_get_idx(&self.data.1, symbol.to_owned())
    }

    /// The number of elements.
    pub fn length(&self) -> (r: usize)
        ensures
            r == self.len_spec(),
    {
        self.length
    }

    /// The name column, the symbol column and the mass column.
    pub fn data(&self) -> (r: &(Vec<String>, Vec<String>, Vec<String>))
        ensures
            column_view(r.0@) == self.names(),
            column_view(r.1@) == self.symbols(),
            column_view(r.2@) == self.masses(),
    {
        &self.data
    }

    /// The headings of the source's four columns.
    pub fn categories(&self) -> (r: [&'static str; 4])
        ensures
            r[0]@ == "Atomic Number"@,
            r[1]@ == "Name"@,
            r[2]@ == "Symbol"@,
            r[3]@ == "Atomic Weight"@,
    {
        ["Atomic Number", "Name", "Symbol", "Atomic Weight"]
    }

    /// The name and the mass text of the element at `index`.
    pub fn record_at(&self, index: usize) -> (r: (String, String))
        requires
            self.wf(),
            index < self.len_spec(),
        ensures
            r.0@ == self.names()[index as int],
            r.1@ == self.masses()[index as int],
    {
        (self.data.0[index].clone(), self.data.2[index].clone())
    }
}

} // verus!

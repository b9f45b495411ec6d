//! Tabular data: reading a CSV table, finding its features and classes, and
//! splitting rows into a training and a validation part.
//!
//! The numbers of a data set are of any type `V`: what a cell reads as is found
//! out by the caller, and everything else is decided here.
use vstd::prelude::*;
use vstd::string::StringExecFns;

use crate::rng;
use crate::text;

verus! {

/// Rows of numbers with a class each.
pub struct Dataset<V> {
    pub x: Vec<Vec<V>>,
    pub y: Vec<usize>,
    pub feature_names: Vec<String>,
    pub classes: Vec<String>,
}

/// A CSV table: the names of its columns and its rows of cells.
pub struct Table {
    pub header: Vec<String>,
    pub rows: Vec<Vec<String>>,
}

/// Why a CSV table gives no data set.
#[derive(Clone, Copy, Debug, PartialEq, Eq, Structural)]
pub enum CsvError {
    /// The file has no line that is not blank.
    Empty,
    /// No column has the name of the target.
    MissingTarget,
    /// There is nothing below the header.
    NoRows,
    /// No column but the target begins with a number.
    NoFeatures,
    /// The target has fewer than two classes.
    TooFewClasses,
}

// ---------------------------------------------------------------------------
// The table in mathematical terms.
// ---------------------------------------------------------------------------

/// The cells of a line: what stands between the commas, without white space at
/// the ends.
pub open spec fn cells(line: Seq<char>) -> Seq<Seq<char>> {
    Seq::new(
        text::split_on(line, ',').len(),
        |i: int| text::trim(text::split_on(line, ',')[i]),
    )
}

pub open spec fn is_blank(line: Seq<char>) -> bool {
    text::trim(line).len() == 0
}

/// The cells of the lines that are not blank.
pub open spec fn filled_rows(lines: Seq<Seq<char>>) -> Seq<Seq<Seq<char>>>
    decreases lines.len(),
{
    if lines.len() == 0 {
        Seq::empty()
    } else if is_blank(lines.last()) {
        filled_rows(lines.drop_last())
    } else {
        filled_rows(lines.drop_last()).push(cells(lines.last()))
    }
}

/// The rows of a CSV text, the header among them. A carriage return before a
/// line break is white space at the end of the last cell.
pub open spec fn csv_rows(csv: Seq<char>) -> Seq<Seq<Seq<char>>> {
    filled_rows(text::split_on(csv, '\n'))
}

/// The texts of rows of cells.
pub open spec fn grid(rows: Seq<Vec<String>>) -> Seq<Seq<Seq<char>>> {
    Seq::new(rows.len(), |i: int| text::texts(rows[i]@))
}

/// The first place at which a list holds a text.
pub open spec fn find(list: Seq<Seq<char>>, wanted: Seq<char>) -> Option<int>
    decreases list.len(),
{
    if list.len() == 0 {
        None
    } else {
        match find(list.drop_last(), wanted) {
            Some(i) => Some(i),
            None => if list.last() == wanted {
                Some(list.len() - 1)
            } else {
                None
            },
        }
    }
}

/// The columns below `k` that are features: not the target, and with a number
/// in the first row.
pub open spec fn feature_columns<V>(first: Seq<Option<V>>, target: int, k: int) -> Seq<int>
    decreases k,
{
    if k <= 0 {
        Seq::empty()
    } else if k - 1 != target && k - 1 < first.len() && first[k - 1] is Some {
        feature_columns(first, target, k - 1).push(k - 1)
    } else {
        feature_columns(first, target, k - 1)
    }
}

/// The class of row `r`, where the row has a cell in the target column.
pub open spec fn label_at(rows: Seq<Seq<Seq<char>>>, target: int, r: int) -> Option<Seq<char>> {
    if target < rows[r].len() {
        Some(rows[r][target])
    } else {
        None
    }
}

/// Whether `s` is the class of some row.
pub open spec fn is_label(rows: Seq<Seq<Seq<char>>>, target: int, s: Seq<char>) -> bool {
    exists|r: int| 0 <= r < rows.len() && #[trigger] label_at(rows, target, r) == Some(s)
}

/// Whether no two rows have different classes.
pub open spec fn too_few_classes(rows: Seq<Seq<Seq<char>>>, target: int) -> bool {
    forall|s: Seq<char>, t: Seq<char>|
        #![trigger is_label(rows, target, s), is_label(rows, target, t)]
        is_label(rows, target, s) && is_label(rows, target, t) ==> s == t
}

/// The number in a cell, or `zero` where the row has no such cell or it holds
/// no number.
pub open spec fn number_at<V>(row: Seq<Option<V>>, column: int, zero: V) -> V {
    if column < row.len() && row[column] is Some {
        row[column]->0
    } else {
        zero
    }
}

/// Whether every text of a list comes before the next.
pub open spec fn strictly_sorted(list: Seq<Seq<char>>) -> bool {
    forall|i: int, j: int|
        0 <= i < j < list.len() ==> text::text_less(#[trigger] list[i], #[trigger] list[j])
}

/// Whether `d` is the data set of a table with the given target column.
pub open spec fn is_dataset_of<V>(
    d: Dataset<V>,
    header: Seq<Seq<char>>,
    rows: Seq<Seq<Seq<char>>>,
    numbers: Seq<Vec<Option<V>>>,
    zero: V,
    target: int,
) -> bool {
    let columns = feature_columns(numbers[0]@, target, header.len() as int);
    let classes = text::texts(d.classes@);
    &&& text::texts(d.feature_names@) == Seq::new(columns.len(), |k: int| header[columns[k]])
    &&& strictly_sorted(classes)
    &&& forall|s: Seq<char>| classes.contains(s) <==> #[trigger] is_label(rows, target, s)
    &&& d.x@.len() == rows.len()
    &&& d.y@.len() == rows.len()
    &&& forall|r: int|
        0 <= r < rows.len() ==> (#[trigger] d.x@[r])@ == Seq::new(
            columns.len(),
            |k: int| number_at(numbers[r]@, columns[k], zero),
        )
    &&& forall|r: int|
        0 <= r < rows.len() ==> match label_at(rows, target, r) {
            Some(s) => (#[trigger] d.y@[r]) < classes.len() && classes[d.y@[r] as int] == s,
            None => d.y@[r] == 0,
        }
}

/// Whether a list of rows of optional numbers has the shape of a table.
pub open spec fn same_shape<V>(numbers: Seq<Vec<Option<V>>>, rows: Seq<Vec<String>>) -> bool {
    &&& numbers.len() == rows.len()
    &&& forall|r: int| 0 <= r < rows.len() ==> (#[trigger] numbers[r])@.len() == rows[r]@.len()
}

// ---------------------------------------------------------------------------
// Reading.
// ---------------------------------------------------------------------------

/// The cells of a line.
fn read_cells(line: &str) -> (r: Vec<String>)
    ensures
        text::texts(r@) == cells(line@),
{
    let pieces = text::split(line, ',');
    let mut r: Vec<String> = Vec::new();
    let mut i: usize = 0;
    while i < pieces.len()
        invariant
            text::texts(pieces@) == text::split_on(line@, ','),
            i <= pieces@.len(),
            r@.len() == i,
            forall|j: int| 0 <= j < i ==> (#[trigger] r@[j])@ == cells(line@)[j],
        decreases pieces@.len() - i,
    {
        assert(text::texts(pieces@)[i as int] == pieces@[i as int]@);
        r.push(text::trimmed(pieces[i].as_str()));
        i += 1;
    }
    assert(pieces@.len() == text::texts(pieces@).len());
    assert(text::texts(r@) =~= cells(line@));
    r
}

/// Reads the table of a CSV text.
pub fn read_table(csv: &str) -> (r: Result<Table, CsvError>)
    ensures
        match r {
            Ok(table) => csv_rows(csv@).len() > 0 && text::texts(table.header@) == csv_rows(csv@)[0]
                && grid(table.rows@) == csv_rows(csv@).skip(1),
            Err(e) => e == CsvError::Empty && csv_rows(csv@).len() == 0,
        },
{
    let lines = text::split(csv, '\n');
    let ghost all = text::texts(lines@);
    let mut rows: Vec<Vec<String>> = Vec::new();
    let mut i: usize = 0;
    assert(grid(rows@) =~= filled_rows(all.take(0)));
    while i < lines.len()
        invariant
            all == text::texts(lines@),
            i <= lines@.len(),
            grid(rows@) == filled_rows(all.take(i as int)),
        decreases lines@.len() - i,
    {
        let line = &lines[i];
        proof {
            assert(all.take(i + 1).drop_last() =~= all.take(i as int));
            assert(all.take(i + 1).last() == line@);
        }
        let content = text::trimmed(line.as_str());
        if !content.as_str().is_empty() {
            let row = read_cells(line.as_str());
            let ghost before = rows@;
            rows.push(row);
            assert(grid(rows@) =~= grid(before).push(cells(line@)));
        }
        i += 1;
    }
    assert(all.take(i as int) =~= all);
    if rows.len() == 0 {
        return Err(CsvError::Empty);
    }
    let ghost before = grid(rows@);
    let header = rows.remove(0);
    proof {
        assert(text::texts(header@) == before[0]);
        assert(grid(rows@) =~= before.skip(1));
    }
    Ok(Table { header, rows })
}

proof fn lemma_find(list: Seq<Seq<char>>, wanted: Seq<char>)
    ensures
        match find(list, wanted) {
            Some(i) => 0 <= i < list.len() && list[i] == wanted && forall|j: int|
                0 <= j < i ==> #[trigger] list[j] != wanted,
            None => forall|j: int| 0 <= j < list.len() ==> #[trigger] list[j] != wanted,
        },
    decreases list.len(),
{
    if list.len() > 0 {
        let before = list.drop_last();
        lemma_find(before, wanted);
        match find(before, wanted) {
            Some(i) => {
                assert(list[i] == before[i]);
                assert forall|j: int| 0 <= j < i implies #[trigger] list[j] != wanted by {
                    assert(before[j] != wanted);
                }
            },
            None => {
                assert forall|j: int| 0 <= j < list.len() - 1 implies #[trigger] list[j]
                    != wanted by {
                    assert(before[j] != wanted);
                }
            },
        }
    }
}

/// A text is found at the first place that holds it, and only a text that the list
/// does not hold is not found.
pub proof fn law_finds_the_first(list: Seq<Seq<char>>, wanted: Seq<char>)
    ensures
        match find(list, wanted) {
            Some(i) => 0 <= i < list.len() && list[i] == wanted && forall|j: int|
                0 <= j < i ==> #[trigger] list[j] != wanted,
            None => forall|j: int| 0 <= j < list.len() ==> #[trigger] list[j] != wanted,
        },
{
    lemma_find(list, wanted);
}

/// The place of a text in a list of strings.
fn find_in(list: &Vec<String>, wanted: &str) -> (r: Option<usize>)
    ensures
        match r {
            Some(i) => find(text::texts(list@), wanted@) == Some(i as int) && i < list@.len(),
            None => find(text::texts(list@), wanted@) is None,
        },
{
    let r = text::position(list, wanted);
    proof {
        let all = text::texts(list@);
        lemma_find(all, wanted@);
        match r {
            Some(i) => {
                assert(all[i as int] == wanted@);
                match find(all, wanted@) {
                    Some(k) => {
                        if k < i {
                            assert(list@[k]@ == all[k]);
                        }
                    },
                    None => {},
                }
            },
            None => {
                match find(all, wanted@) {
                    Some(k) => {
                        assert(list@[k]@ == all[k]);
                    },
                    None => {},
                }
            },
        }
    }
    r
}

// ---------------------------------------------------------------------------
// Features and classes.
// ---------------------------------------------------------------------------

/// The feature columns of a table of `width` columns.
fn find_features<V>(first: &Vec<Option<V>>, target: usize, width: usize) -> (r: Vec<usize>)
    ensures
        r@.len() == feature_columns(first@, target as int, width as int).len(),
        forall|k: int|
            0 <= k < r@.len() ==> #[trigger] r@[k] as int == feature_columns(
                first@,
                target as int,
                width as int,
            )[k],
        forall|k: int| 0 <= k < r@.len() ==> #[trigger] r@[k] < width,
        forall|j: int, k: int| 0 <= j < k < r@.len() ==> #[trigger] r@[j] < #[trigger] r@[k],
        forall|c: usize| #[trigger]
            r@.contains(c) <==> c < width && c != target && c < first@.len() && first@[c as int]
                is Some,
{
    let mut r: Vec<usize> = Vec::new();
    let mut i: usize = 0;
    while i < width
        invariant
            i <= width,
            r@.len() == feature_columns(first@, target as int, i as int).len(),
            forall|k: int|
                0 <= k < r@.len() ==> #[trigger] r@[k] as int == feature_columns(
                    first@,
                    target as int,
                    i as int,
                )[k],
            forall|k: int| 0 <= k < r@.len() ==> #[trigger] r@[k] < i,
            forall|j: int, k: int| 0 <= j < k < r@.len() ==> #[trigger] r@[j] < #[trigger] r@[k],
            forall|c: usize| #[trigger]
                r@.contains(c) <==> c < i && c != target && c < first@.len() && first@[c as int]
                    is Some,
        decreases width - i,
    {
        let ghost before = r@;
        if i != target && i < first.len() && first[i].is_some() {
            r.push(i);
            proof {
                assert(r@[before.len() as int] == i);
                assert forall|c: usize| #[trigger] r@.contains(c) <==> before.contains(c) || c
                    == i by {
                    if before.contains(c) {
                        let k = choose|k: int| 0 <= k < before.len() && before[k] == c;
                        assert(r@[k] == c);
                    }
                    if r@.contains(c) && c != i {
                        let k = choose|k: int| 0 <= k < r@.len() && r@[k] == c;
                        assert(before[k] == c);
                    }
                }
            }
        }
        i += 1;
    }
    r
}

/// Puts a class into a sorted list of classes, where it is not there yet.
fn add_class(classes: &mut Vec<String>, class: &str)
    requires
        strictly_sorted(text::texts(old(classes)@)),
    ensures
        strictly_sorted(text::texts(final(classes)@)),
        forall|s: Seq<char>| #[trigger]
            text::texts(final(classes)@).contains(s) <==> text::texts(old(classes)@).contains(s)
                || s == class@,
{
    let ghost before = text::texts(classes@);
    let mut i: usize = 0;
    while i < classes.len() && text::less(classes[i].as_str(), class)
        invariant
            i <= classes@.len(),
            before == text::texts(classes@),
            forall|j: int| 0 <= j < i ==> text::text_less(#[trigger] before[j], class@),
        decreases classes@.len() - i,
    {
        assert(before[i as int] == classes@[i as int]@);
        i += 1;
    }
    if i < classes.len() && text::same(classes[i].as_str(), class) {
        assert(before[i as int] == class@);
        return ;
    }
    classes.insert(i, class.to_string());
    proof {
        let after = text::texts(classes@);
        assert(after =~= before.insert(i as int, class@));
        assert forall|j: int| i <= j < before.len() implies text::text_less(
            class@,
            #[trigger] before[j],
        ) by {
            text::lemma_text_less_total(class@, before[i as int]);
            if j > i {
                text::lemma_text_less_transitive(class@, before[i as int], before[j]);
            }
        }
        assert forall|a: int, b: int| 0 <= a < b < after.len() implies text::text_less(
            #[trigger] after[a],
            #[trigger] after[b],
        ) by {
            if a < i {
                assert(after[a] == before[a]);
                if b == i {
                } else if b < i {
                    assert(after[b] == before[b]);
                } else {
                    assert(after[b] == before[b - 1]);
                }
            } else if a == i {
                assert(after[b] == before[b - 1]);
            } else {
                assert(after[a] == before[a - 1]);
                assert(after[b] == before[b - 1]);
            }
        }
        assert forall|s: Seq<char>| #[trigger] after.contains(s) <==> before.contains(s) || s
            == class@ by {
            if before.contains(s) {
                let k = choose|k: int| 0 <= k < before.len() && before[k] == s;
                if k < i {
                    assert(after[k] == s);
                } else {
                    assert(after[k + 1] == s);
                }
            }
            if after.contains(s) {
                let k = choose|k: int| 0 <= k < after.len() && after[k] == s;
                if k < i {
                    assert(before[k] == s);
                } else if k > i {
                    assert(before[k - 1] == s);
                }
            }
            assert(after[i as int] == class@);
        }
    }
}

/// The classes of a table, sorted and each once.
fn find_classes(rows: &Vec<Vec<String>>, target: usize) -> (r: Vec<String>)
    ensures
        strictly_sorted(text::texts(r@)),
        forall|s: Seq<char>|
            text::texts(r@).contains(s) <==> #[trigger] is_label(grid(rows@), target as int, s),
{
    let ghost all = grid(rows@);
    let mut r: Vec<String> = Vec::new();
    let mut i: usize = 0;
    while i < rows.len()
        invariant
            all == grid(rows@),
            i <= rows@.len(),
            strictly_sorted(text::texts(r@)),
            forall|s: Seq<char>| #[trigger]
                text::texts(r@).contains(s) <==> exists|k: int|
                    0 <= k < i && #[trigger] label_at(all, target as int, k) == Some(s),
        decreases rows@.len() - i,
    {
        let row = &rows[i];
        assert(all[i as int] == text::texts(row@));
        let ghost before = text::texts(r@);
        if target < row.len() {
            add_class(&mut r, row[target].as_str());
            assert(label_at(all, target as int, i as int) == Some(row@[target as int]@));
        } else {
            assert(label_at(all, target as int, i as int) is None);
        }
        proof {
            assert forall|s: Seq<char>| #[trigger]
                text::texts(r@).contains(s) <==> exists|k: int|
                    0 <= k < i + 1 && #[trigger] label_at(all, target as int, k) == Some(s) by {
                if before.contains(s) {
                    let k = choose|k: int|
                        0 <= k < i && #[trigger] label_at(all, target as int, k) == Some(s);
                    assert(label_at(all, target as int, k) == Some(s));
                }
                if exists|k: int|
                    0 <= k < i + 1 && #[trigger] label_at(all, target as int, k) == Some(s) {
                    let k = choose|k: int|
                        0 <= k < i + 1 && #[trigger] label_at(all, target as int, k) == Some(s);
                    if k < i {
                        assert(before.contains(s));
                    }
                }
            }
        }
        i += 1;
    }
    proof {
        assert forall|s: Seq<char>|
            text::texts(r@).contains(s) <==> #[trigger] is_label(all, target as int, s) by {
            assert(text::texts(r@).contains(s) <==> exists|k: int|
                0 <= k < rows@.len() && #[trigger] label_at(all, target as int, k) == Some(s));
        }
    }
    r
}


/// The names of the given columns.
fn column_names(header: &Vec<String>, columns: &Vec<usize>) -> (r: Vec<String>)
    requires
        forall|k: int| 0 <= k < columns@.len() ==> #[trigger] columns@[k] < header@.len(),
    ensures
        r@.len() == columns@.len(),
        forall|k: int|
            0 <= k < r@.len() ==> (#[trigger] r@[k])@ == header@[columns@[k] as int]@,
{
    let mut r: Vec<String> = Vec::new();
    let mut i: usize = 0;
    while i < columns.len()
        invariant
            i <= columns@.len(),
            forall|k: int| 0 <= k < columns@.len() ==> #[trigger] columns@[k] < header@.len(),
            r@.len() == i,
            forall|k: int|
                0 <= k < r@.len() ==> (#[trigger] r@[k])@ == header@[columns@[k] as int]@,
        decreases columns@.len() - i,
    {
        let column = columns[i];
        r.push(header[column].clone());
        i += 1;
    }
    r
}

/// The numbers of one row in the given columns.
fn row_numbers<V: Copy>(row: &Vec<Option<V>>, columns: &Vec<usize>, zero: V) -> (r: Vec<V>)
    ensures
        r@.len() == columns@.len(),
        forall|k: int|
            0 <= k < r@.len() ==> #[trigger] r@[k] == number_at(row@, columns@[k] as int, zero),
{
    let mut r: Vec<V> = Vec::new();
    let mut i: usize = 0;
    while i < columns.len()
        invariant
            i <= columns@.len(),
            r@.len() == i,
            forall|k: int|
                0 <= k < r@.len() ==> #[trigger] r@[k] == number_at(
                    row@,
                    columns@[k] as int,
                    zero,
                ),
        decreases columns@.len() - i,
    {
        let column = columns[i];
        let number = if column < row.len() {
            match row[column] {
                Some(v) => v,
                None => zero,
            }
        } else {
            zero
        };
        r.push(number);
        i += 1;
    }
    r
}

/// The class of a row as its place among the classes.
fn row_label(row: &Vec<String>, target: usize, classes: &Vec<String>) -> (r: usize)
    requires
        target < row@.len() ==> text::texts(classes@).contains(row@[target as int]@),
    ensures
        if target < row@.len() {
            r < classes@.len() && classes@[r as int]@ == row@[target as int]@
        } else {
            r == 0
        },
{
    if target < row.len() {
        match text::position(classes, row[target].as_str()) {
            Some(i) => i,
            None => {
                proof {
                    let s = row@[target as int]@;
                    let all = text::texts(classes@);
                    let k = choose|k: int| 0 <= k < all.len() && all[k] == s;
                    assert(classes@[k]@ == s);
                }
                0
            },
        }
    } else {
        0
    }
}

proof fn lemma_class_count(classes: Seq<Seq<char>>, rows: Seq<Seq<Seq<char>>>, target: int)
    requires
        strictly_sorted(classes),
        forall|s: Seq<char>| classes.contains(s) <==> #[trigger] is_label(rows, target, s),
    ensures
        too_few_classes(rows, target) <==> classes.len() < 2,
{
    if classes.len() >= 2 {
        let a = classes[0];
        let b = classes[1];
        assert(classes.contains(a));
        assert(classes.contains(b));
        assert(is_label(rows, target, a));
        assert(is_label(rows, target, b));
        assert(text::text_less(a, b));
        text::lemma_text_less_irreflexive(a);
    } else {
        assert forall|s: Seq<char>, t: Seq<char>|
            #![trigger is_label(rows, target, s), is_label(rows, target, t)]
            is_label(rows, target, s) && is_label(rows, target, t) implies s == t by {
            assert(classes.contains(s));
            assert(classes.contains(t));
        }
    }
}

/// The data set of a table: every column but the target whose first cell is a
/// number is a feature, and the distinct cells of the target column are the
/// classes. `numbers` holds, for every cell, the number that it reads as.
pub fn load_csv<V: Copy>(
    table: &Table,
    numbers: &Vec<Vec<Option<V>>>,
    zero: V,
    target: &str,
) -> (r: Result<Dataset<V>, CsvError>)
    requires
        same_shape(numbers@, table.rows@),
    ensures
        match find(text::texts(table.header@), target@) {
            None => r == Err::<Dataset<V>, CsvError>(CsvError::MissingTarget),
            Some(t) => if table.rows@.len() == 0 {
                r == Err::<Dataset<V>, CsvError>(CsvError::NoRows)
            } else if feature_columns(numbers@[0]@, t, table.header@.len() as int).len() == 0 {
                r == Err::<Dataset<V>, CsvError>(CsvError::NoFeatures)
            } else if too_few_classes(grid(table.rows@), t) {
                r == Err::<Dataset<V>, CsvError>(CsvError::TooFewClasses)
            } else {
                r is Ok && is_dataset_of(
                    r->Ok_0,
                    text::texts(table.header@),
                    grid(table.rows@),
                    numbers@,
                    zero,
                    t,
                )
            },
        },
{
    let target_idx = match find_in(&table.header, target) {
        Some(i) => i,
        None => {
            return Err(CsvError::MissingTarget);
        },
    };
    if table.rows.len() == 0 {
        return Err(CsvError::NoRows);
    }
    let columns = find_features(&numbers[0], target_idx, table.header.len());
    if columns.len() == 0 {
        return Err(CsvError::NoFeatures);
    }
    let feature_names = column_names(&table.header, &columns);
    let classes = find_classes(&table.rows, target_idx);
    let ghost rows = grid(table.rows@);
    let ghost t = target_idx as int;
    proof {
        lemma_class_count(text::texts(classes@), rows, t);
    }
    if classes.len() < 2 {
        return Err(CsvError::TooFewClasses);
    }
    let ghost picked = feature_columns(numbers@[0]@, t, table.header@.len() as int);
    let mut x: Vec<Vec<V>> = Vec::new();
    let mut y: Vec<usize> = Vec::new();
    let mut i: usize = 0;
    while i < table.rows.len()
        invariant
            i <= table.rows@.len(),
            same_shape(numbers@, table.rows@),
            rows == grid(table.rows@),
            t == target_idx,
            picked.len() == columns@.len(),
            forall|k: int| 0 <= k < columns@.len() ==> #[trigger] columns@[k] as int == picked[k],
            forall|s: Seq<char>|
                text::texts(classes@).contains(s) <==> #[trigger] is_label(rows, t, s),
            x@.len() == i,
            y@.len() == i,
            forall|r: int|
                0 <= r < i ==> (#[trigger] x@[r])@ == Seq::new(
                    picked.len(),
                    |k: int| number_at(numbers@[r]@, picked[k], zero),
                ),
            forall|r: int|
                0 <= r < i ==> match label_at(rows, t, r) {
                    Some(s) => (#[trigger] y@[r]) < text::texts(classes@).len() && text::texts(
                        classes@,
                    )[y@[r] as int] == s,
                    None => y@[r] == 0,
                },
        decreases table.rows@.len() - i,
    {
        let features = row_numbers(&numbers[i], &columns, zero);
        proof {
            assert(features@ =~= Seq::new(
                picked.len(),
                |k: int| number_at(numbers@[i as int]@, picked[k], zero),
            ));
            assert(rows[i as int] == text::texts(table.rows@[i as int]@));
            if target_idx < table.rows@[i as int]@.len() {
                let s = table.rows@[i as int]@[t]@;
                assert(label_at(rows, t, i as int) == Some(s));
                assert(is_label(rows, t, s));
            }
        }
        let label = row_label(&table.rows[i], target_idx, &classes);
        x.push(features);
        y.push(label);
        i += 1;
    }
    proof {
        assert(text::texts(feature_names@) =~= Seq::new(
            picked.len(),
            |k: int| text::texts(table.header@)[picked[k]],
        ));
    }
    Ok(Dataset { x, y, feature_names, classes })
}

/// In the data set of a table every row has a number for each feature, and a
/// class that exists.
pub proof fn law_dataset_is_complete<V>(
    d: Dataset<V>,
    header: Seq<Seq<char>>,
    rows: Seq<Seq<Seq<char>>>,
    numbers: Seq<Vec<Option<V>>>,
    zero: V,
    target: int,
)
    requires
        is_dataset_of(d, header, rows, numbers, zero, target),
        !too_few_classes(rows, target),
    ensures
        d.classes@.len() >= 2,
        d.x@.len() == rows.len(),
        d.y@.len() == rows.len(),
        forall|r: int|
            0 <= r < rows.len() ==> (#[trigger] d.x@[r])@.len() == d.feature_names@.len(),
        forall|r: int| 0 <= r < rows.len() ==> (#[trigger] d.y@[r]) < d.classes@.len(),
{
    lemma_class_count(text::texts(d.classes@), rows, target);
    assert(text::texts(d.feature_names@).len() == d.feature_names@.len());
}

/// The target is no feature, and a feature is a column of the table.
pub proof fn law_features_are_other_columns<V>(first: Seq<Option<V>>, target: int, k: int)
    ensures
        forall|i: int|
            0 <= i < feature_columns(first, target, k).len() ==> {
                let column = #[trigger] feature_columns(first, target, k)[i];
                0 <= column < k && column != target && column < first.len() && first[column] is Some
            },
    decreases k,
{
    if k > 0 {
        law_features_are_other_columns(first, target, k - 1);
    }
}

/// Whether a column holds a feature: it is a column of the table, not the target,
/// and has a number in the first row.
pub open spec fn is_feature<V>(first: Seq<Option<V>>, target: int, width: int, column: int) -> bool {
    &&& 0 <= column < width
    &&& column != target
    &&& column < first.len()
    &&& first[column] is Some
}

/// Whether numbers grow from one to the next.
pub open spec fn increasing(list: Seq<int>) -> bool {
    forall|i: int, j: int| 0 <= i < j < list.len() ==> #[trigger] list[i] < #[trigger] list[j]
}

/// The features of a table are all its columns that hold one, from left to right.
pub proof fn law_every_feature_is_found<V>(first: Seq<Option<V>>, target: int, width: int)
    ensures
        increasing(feature_columns(first, target, width)),
        forall|column: int| #[trigger]
            feature_columns(first, target, width).contains(column) <==> is_feature(
                first,
                target,
                width,
                column,
            ),
        feature_columns(first, target, width).len() == 0 <==> forall|column: int|
            !#[trigger] is_feature(first, target, width, column),
    decreases width,
{
    let all = feature_columns(first, target, width);
    if width > 0 {
        law_every_feature_is_found(first, target, width - 1);
        let before = feature_columns(first, target, width - 1);
        assert forall|k: int| 0 <= k < before.len() implies #[trigger] before[k] < width - 1 by {
            assert(before.contains(before[k]));
        }
        assert forall|column: int| #[trigger] all.contains(column) <==> is_feature(
            first,
            target,
            width,
            column,
        ) by {
            assert(before.contains(column) <==> is_feature(first, target, width - 1, column));
            if all.contains(column) {
                let k = choose|k: int| 0 <= k < all.len() && all[k] == column;
                if k < before.len() {
                    assert(before[k] == column);
                }
            }
            if before.contains(column) {
                let k = choose|k: int| 0 <= k < before.len() && before[k] == column;
                assert(all[k] == column);
            }
            if is_feature(first, target, width, width - 1) {
                assert(all[all.len() - 1] == width - 1);
            }
        }
    }
    if all.len() > 0 {
        assert(all.contains(all[0]));
        assert(is_feature(first, target, width, all[0]));
    } else {
        assert forall|column: int| !#[trigger] is_feature(first, target, width, column) by {
            assert(!all.contains(column));
        }
    }
}

/// Whether a text stands in a column of some row.
pub open spec fn stands_in(rows: Seq<Seq<Seq<char>>>, column: int, s: Seq<char>) -> bool {
    exists|r: int|
        0 <= r < rows.len() && column < (#[trigger] rows[r]).len() && rows[r][column] == s
}

/// The data set of a table holds the table: there is one feature for each column
/// that holds one, from left to right, under the name of the column; every row has
/// its own numbers in these columns, with zero for what is missing; and every row
/// has the class that stands in its target column.
pub proof fn law_dataset_holds_the_table<V>(
    d: Dataset<V>,
    header: Seq<Seq<char>>,
    rows: Seq<Seq<Seq<char>>>,
    numbers: Seq<Vec<Option<V>>>,
    zero: V,
    target: int,
) -> (columns: Seq<int>)
    requires
        is_dataset_of(d, header, rows, numbers, zero, target),
    ensures
        increasing(columns),
        forall|c: int| #[trigger]
            columns.contains(c) <==> 0 <= c < header.len() && c != target && c < numbers[0]@.len()
                && numbers[0]@[c] is Some,
        d.feature_names@.len() == columns.len(),
        forall|k: int|
            0 <= k < columns.len() ==> (#[trigger] d.feature_names@[k])@ == header[columns[k]],
        d.x@.len() == rows.len(),
        d.y@.len() == rows.len(),
        forall|r: int|
            0 <= r < rows.len() ==> (#[trigger] d.x@[r])@.len() == columns.len(),
        forall|r: int, k: int|
            0 <= r < rows.len() && 0 <= k < columns.len() ==> #[trigger] d.x@[r]@[k] == (
            if columns[k] < numbers[r]@.len() {
                match numbers[r]@[columns[k]] {
                    Some(number) => number,
                    None => zero,
                }
            } else {
                zero
            }),
        forall|r: int|
            0 <= r < rows.len() && target < rows[r].len() ==> (#[trigger] d.y@[r])
                < d.classes@.len() && d.classes@[d.y@[r] as int]@ == rows[r][target],
        forall|r: int|
            0 <= r < rows.len() && target >= rows[r].len() ==> #[trigger] d.y@[r] == 0,
        forall|c: int|
            0 <= c < d.classes@.len() ==> stands_in(rows, target, (#[trigger] d.classes@[c])@),
        forall|a: int, b: int|
            0 <= a < b < d.classes@.len() ==> text::text_less(
                (#[trigger] d.classes@[a])@,
                (#[trigger] d.classes@[b])@,
            ),
{
    let columns = feature_columns(numbers[0]@, target, header.len() as int);
    let classes = text::texts(d.classes@);
    law_every_feature_is_found(numbers[0]@, target, header.len() as int);
    assert(text::texts(d.feature_names@).len() == d.feature_names@.len());
    assert forall|k: int| 0 <= k < columns.len() implies (#[trigger] d.feature_names@[k])@
        == header[columns[k]] by {
        assert(text::texts(d.feature_names@)[k] == header[columns[k]]);
    }
    assert forall|r: int| 0 <= r < rows.len() && target < rows[r].len() implies (#[trigger] d.y@[r])
        < d.classes@.len() && d.classes@[d.y@[r] as int]@ == rows[r][target] by {
        assert(label_at(rows, target, r) == Some(rows[r][target]));
        assert(classes[d.y@[r] as int] == d.classes@[d.y@[r] as int]@);
    }
    assert forall|r: int| 0 <= r < rows.len() && target >= rows[r].len() implies #[trigger] d.y@[r]
        == 0 by {
        assert(label_at(rows, target, r) is None);
    }
    assert forall|c: int| 0 <= c < d.classes@.len() implies stands_in(
        rows,
        target,
        (#[trigger] d.classes@[c])@,
    ) by {
        let s = classes[c];
        assert(classes.contains(s));
        assert(is_label(rows, target, s));
        let r = choose|r: int| 0 <= r < rows.len() && #[trigger] label_at(rows, target, r) == Some(s);
        assert(target < rows[r].len() && rows[r][target] == d.classes@[c]@);
    }
    assert forall|a: int, b: int| 0 <= a < b < d.classes@.len() implies text::text_less(
        (#[trigger] d.classes@[a])@,
        (#[trigger] d.classes@[b])@,
    ) by {
        assert(text::text_less(classes[a], classes[b]));
    }
    columns
}

/// A table has too few classes exactly where no two of its rows differ in the
/// target column.
pub proof fn law_two_rows_that_differ(rows: Seq<Seq<Seq<char>>>, target: int)
    ensures
        !too_few_classes(rows, target) <==> exists|r: int, q: int|
            #![trigger rows[r], rows[q]]
            0 <= r < rows.len() && 0 <= q < rows.len() && target < rows[r].len() && target
                < rows[q].len() && rows[r][target] != rows[q][target],
{
    if !too_few_classes(rows, target) {
        let (s, t) = choose|s: Seq<char>, t: Seq<char>|
            #![trigger is_label(rows, target, s), is_label(rows, target, t)]
            is_label(rows, target, s) && is_label(rows, target, t) && s != t;
        let r = choose|r: int| 0 <= r < rows.len() && #[trigger] label_at(rows, target, r) == Some(s);
        let q = choose|q: int| 0 <= q < rows.len() && #[trigger] label_at(rows, target, q) == Some(t);
        assert(rows[r][target] != rows[q][target]);
    }
    if exists|r: int, q: int|
        #![trigger rows[r], rows[q]]
        0 <= r < rows.len() && 0 <= q < rows.len() && target < rows[r].len() && target
            < rows[q].len() && rows[r][target] != rows[q][target] {
        let (r, q) = choose|r: int, q: int|
            #![trigger rows[r], rows[q]]
            0 <= r < rows.len() && 0 <= q < rows.len() && target < rows[r].len() && target
                < rows[q].len() && rows[r][target] != rows[q][target];
        assert(label_at(rows, target, r) == Some(rows[r][target]));
        assert(label_at(rows, target, q) == Some(rows[q][target]));
        assert(is_label(rows, target, rows[r][target]));
        assert(is_label(rows, target, rows[q][target]));
    }
}

/// The rows of a text are its lines that are not blank, in order, each with the
/// cells of its line.
pub proof fn law_rows_are_filled_lines(lines: Seq<Seq<char>>) -> (kept: Seq<int>)
    ensures
        increasing(kept),
        forall|i: int| #[trigger]
            kept.contains(i) <==> 0 <= i < lines.len() && exists|k: int|
                0 <= k < lines[i].len() && !text::white_space(#[trigger] lines[i][k]),
        filled_rows(lines).len() == kept.len(),
        forall|k: int|
            0 <= k < kept.len() ==> #[trigger] filled_rows(lines)[k] == cells(lines[kept[k]]),
    decreases lines.len(),
{
    if lines.len() == 0 {
        Seq::empty()
    } else {
        let front = lines.drop_last();
        let n = front.len() as int;
        let before = law_rows_are_filled_lines(front);
        let line = lines.last();
        text::law_trim(line);
        assert(lines[n] == line);
        assert forall|k: int| 0 <= k < before.len() implies 0 <= #[trigger] before[k] < n by {
            assert(before.contains(before[k]));
        }
        let kept = if is_blank(line) {
            before
        } else {
            before.push(n)
        };
        assert forall|i: int| #[trigger] kept.contains(i) <==> 0 <= i < lines.len() && exists|
            k: int,
        |
            0 <= k < lines[i].len() && !text::white_space(#[trigger] lines[i][k]) by {
            if 0 <= i < n {
                assert(front[i] == lines[i]);
            }
            assert(before.contains(i) ==> i < n) by {
                if before.contains(i) {
                    let k = choose|k: int| 0 <= k < before.len() && before[k] == i;
                }
            }
            if !is_blank(line) {
                assert(kept[before.len() as int] == n);
                if before.contains(i) {
                    let k = choose|k: int| 0 <= k < before.len() && before[k] == i;
                    assert(kept[k] == i);
                }
                if kept.contains(i) && i != n {
                    let k = choose|k: int| 0 <= k < kept.len() && kept[k] == i;
                    assert(before[k] == i);
                }
            }
        }
        assert forall|k: int| 0 <= k < kept.len() implies #[trigger] filled_rows(lines)[k] == cells(
            lines[kept[k]],
        ) by {
            if k < before.len() {
                assert(filled_rows(front)[k] == cells(front[before[k]]));
            }
        }
        kept
    }
}

/// The cells of a line are what stands between its commas, without white space at
/// the ends: with the pieces joined by commas the line is back.
pub proof fn law_cells_are_the_pieces(line: Seq<char>) -> (pieces: Seq<Seq<char>>)
    ensures
        text::join(pieces, seq![',']) == line,
        cells(line).len() == pieces.len(),
        forall|i: int| 0 <= i < pieces.len() ==> !(#[trigger] pieces[i]).contains(','),
        forall|i: int| 0 <= i < pieces.len() ==> #[trigger] cells(line)[i] == text::trim(pieces[i]),
{
    text::lemma_split_join(line, ',');
    text::lemma_split_pieces(line, ',');
    text::split_on(line, ',')
}

// ---------------------------------------------------------------------------
// Messages.
// ---------------------------------------------------------------------------

/// What `{:?}` of the standard library prints for a list of strings.
pub uninterp spec fn debug_list(list: Seq<Seq<char>>) -> Seq<char>;

/// The `Debug` format of a list of strings is a function of their texts; its
/// escapes are not spelled out.
#[verifier::external_body]
pub(crate) fn show_list(list: &Vec<String>) -> (r: String)
    ensures
        r@ == debug_list(text::texts(list@)),
{
    format!("{list:?}")
}

/// What went wrong, for people.
pub open spec fn csv_message(
    error: CsvError,
    path: Seq<char>,
    target: Seq<char>,
    header: Seq<Seq<char>>,
) -> Seq<char> {
    match error {
        CsvError::Empty => path + " is empty"@,
        CsvError::MissingTarget => "target column '"@ + target + "' not in "@ + debug_list(header),
        CsvError::NoRows => "no data rows in "@ + path,
        CsvError::NoFeatures => "no numeric feature columns found"@,
        CsvError::TooFewClasses => "need at least 2 distinct target classes"@,
    }
}

impl CsvError {
    /// What went wrong, for people.
    pub fn message(&self, path: &str, target: &str, header: &Vec<String>) -> (r: String)
        ensures
            r@ == csv_message(*self, path@, target@, text::texts(header@)),
    {
        match *self {
            CsvError::Empty => {
                let mut r = path.to_string();
                r.append(" is empty");
                r
            },
            CsvError::MissingTarget => {
                let mut r = "target column '".to_string();
                r.append(target);
                r.append("' not in ");
                let shown = show_list(header);
                r.append(shown.as_str());
                r
            },
            CsvError::NoRows => {
                let mut r = "no data rows in ".to_string();
                r.append(path);
                r
            },
            CsvError::NoFeatures => "no numeric feature columns found".to_string(),
            CsvError::TooFewClasses => "need at least 2 distinct target classes".to_string(),
        }
    }
}

// ---------------------------------------------------------------------------
// Built-in data.
// ---------------------------------------------------------------------------

/// The random bits of the built-in data set: for each point three samples of the
/// normal distribution, of two numbers each, drawn one after the other.
pub fn synthetic_draws(seed: u64, samples: usize) -> (r: Vec<Vec<(u64, u64)>>)
    ensures
        r@.len() == samples,
        forall|i: int|
            #![trigger r@[i]]
            0 <= i < samples ==> r@[i]@ == Seq::new(
                3,
                |k: int|
                    (
                        rng::draw(seed, (6 * i + 2 * k) as nat) / 2048,
                        rng::draw(seed, (6 * i + 2 * k + 1) as nat) / 2048,
                    ),
            ),
{
    let mut gen = rng::Rng { state: seed };
    let mut r: Vec<Vec<(u64, u64)>> = Vec::new();
    let mut i: usize = 0;
    assert(gen.state == rng::advance(seed, 0));
    while i < samples
        invariant
            i <= samples,
            gen.state == rng::advance(seed, (6 * i) as nat),
            r@.len() == i,
            forall|j: int|
                #![trigger r@[j]]
                0 <= j < i ==> r@[j]@ == Seq::new(
                    3,
                    |k: int|
                        (
                            rng::draw(seed, (6 * j + 2 * k) as nat) / 2048,
                            rng::draw(seed, (6 * j + 2 * k + 1) as nat) / 2048,
                        ),
                ),
        decreases samples - i,
    {
        let mut point: Vec<(u64, u64)> = Vec::new();
        let mut k: usize = 0;
        while k < 3
            invariant
                k <= 3,
                i < samples,
                gen.state == rng::advance(seed, (6 * i + 2 * k) as nat),
                point@ == Seq::new(
                    k as nat,
                    |k: int|
                        (
                            rng::draw(seed, (6 * i + 2 * k) as nat) / 2048,
                            rng::draw(seed, (6 * i + 2 * k + 1) as nat) / 2048,
                        ),
                ),
            decreases 3 - k,
        {
            proof {
                let at = (6 * i + 2 * k) as nat;
                rng::lemma_advance(seed, at, 0);
                rng::lemma_advance(seed, at, 1);
                rng::lemma_advance(seed, at, 2);
            }
            point.push(gen.gauss_bits());
            k += 1;
            assert(point@ =~= Seq::new(
                k as nat,
                |k: int|
                    (
                        rng::draw(seed, (6 * i + 2 * k) as nat) / 2048,
                        rng::draw(seed, (6 * i + 2 * k + 1) as nat) / 2048,
                    ),
            ));
        }
        r.push(point);
        i += 1;
    }
    r
}

/// The built-in two-blob data set around the given points: the points belong to
/// the two classes in turn.
pub fn synthetic<V>(x: Vec<Vec<V>>) -> (r: Dataset<V>)
    ensures
        r.x == x,
        r.y@ == Seq::new(x@.len(), |i: int| (i % 2) as usize),
        text::texts(r.feature_names@) == seq!["x1"@, "x2"@, "noise"@],
        text::texts(r.classes@) == seq!["0"@, "1"@],
{
    let mut y: Vec<usize> = Vec::new();
    let mut i: usize = 0;
    while i < x.len()
        invariant
            i <= x@.len(),
            y@ == Seq::new(i as nat, |j: int| (j % 2) as usize),
        decreases x@.len() - i,
    {
        y.push(i % 2);
        i += 1;
        assert(y@ =~= Seq::new(i as nat, |j: int| (j % 2) as usize));
    }
    let feature_names: Vec<String> = vec!["x1".to_string(), "x2".to_string(), "noise".to_string()];
    let classes: Vec<String> = vec!["0".to_string(), "1".to_string()];
    assert(text::texts(feature_names@) =~= seq!["x1"@, "x2"@, "noise"@]);
    assert(text::texts(classes@) =~= seq!["0"@, "1"@]);
    Dataset { x, y, feature_names, classes }
}

// ---------------------------------------------------------------------------
// Splitting.
// ---------------------------------------------------------------------------

/// Rows and their labels, shuffled and split.
pub struct Split<T> {
    pub train_x: Vec<T>,
    pub train_y: Vec<usize>,
    pub val_x: Vec<T>,
    pub val_y: Vec<usize>,
}

/// The seed of the shuffle that belongs to the seed of a run.
pub open spec fn shuffle_seed(seed: u64) -> u64 {
    seed ^ 0xABCD
}

/// Whether `split` is the split of rows and labels: in random order, the first
/// `n_val` for validation and the others for training.
pub open spec fn is_split_of<T>(
    split: Split<T>,
    x: Seq<T>,
    y: Seq<usize>,
    seed: u64,
    n_val: int,
) -> bool {
    let sx = rng::shuffled(x, shuffle_seed(seed));
    let sy = rng::shuffled(y, shuffle_seed(seed));
    &&& split.val_x@ == sx.take(n_val)
    &&& split.val_y@ == sy.take(n_val)
    &&& split.train_x@ == sx.skip(n_val)
    &&& split.train_y@ == sy.skip(n_val)
}

/// Shuffles rows and labels together and splits the validation part off the
/// front.
pub fn shuffle_split<T>(x: Vec<T>, y: Vec<usize>, seed: u64, n_val: usize) -> (r: Split<T>)
    requires
        x@.len() == y@.len(),
        n_val <= x@.len(),
    ensures
        is_split_of(r, x@, y@, seed, n_val as int),
{
    let mut val_x = x;
    let mut val_y = y;
    proof {
        rng::law_shuffle_follows_order(x@, shuffle_seed(seed));
        rng::law_shuffle_follows_order(y@, shuffle_seed(seed));
    }
    rng::shuffle_rows(&mut val_x, &mut val_y, seed ^ 0xABCD);
    let ghost sx = val_x@;
    let ghost sy = val_y@;
    let train_x = val_x.split_off(n_val);
    let train_y = val_y.split_off(n_val);
    assert(val_x@ =~= sx.take(n_val as int));
    assert(val_y@ =~= sy.take(n_val as int));
    assert(train_x@ =~= sx.skip(n_val as int));
    assert(train_y@ =~= sy.skip(n_val as int));
    Split { train_x, train_y, val_x, val_y }
}

/// How many rows of a table validate: what was asked for, but at least one.
pub open spec fn table_val_count(asked: int) -> int {
    if asked < 1 {
        1
    } else {
        asked
    }
}

/// How many of `total` images validate: what was asked for, but at least one,
/// and always leaving one to train on.
pub open spec fn image_val_count(asked: int, total: int) -> int {
    if table_val_count(asked) < total - 1 {
        table_val_count(asked)
    } else {
        total - 1
    }
}

/// A data set ready for training, with the numbers as they came.
pub struct Prepared<V> {
    pub split: Split<Vec<V>>,
    pub feature_names: Vec<String>,
    pub classes: Vec<String>,
}

/// Shuffles a data set and splits it. `asked` is the count of validation rows
/// that the configured share comes to.
pub fn prepare<V>(data: Dataset<V>, seed: u64, asked: usize) -> (r: Prepared<V>)
    requires
        data.x@.len() == data.y@.len(),
        table_val_count(asked as int) <= data.x@.len(),
    ensures
        is_split_of(r.split, data.x@, data.y@, seed, table_val_count(asked as int)),
        r.split.val_x@.len() == if asked == 0 {
            1
        } else {
            asked as nat
        },
        r.split.val_x@.len() + r.split.train_x@.len() == data.x@.len(),
        r.feature_names == data.feature_names,
        r.classes == data.classes,
{
    proof {
        rng::law_shuffle_follows_order(data.x@, shuffle_seed(seed));
    }
    let n_val = if asked < 1 {
        1
    } else {
        asked
    };
    let split = shuffle_split(data.x, data.y, seed, n_val);
    Prepared { split, feature_names: data.feature_names, classes: data.classes }
}

/// Images ready for training, with their class names and common size.
pub struct PreparedImages<T> {
    pub split: Split<T>,
    pub classes: Vec<String>,
    pub height: usize,
    pub width: usize,
}

/// Shuffles images and splits them. `asked` is the count of validation images
/// that the configured share comes to.
pub fn prepare_images<T>(
    images: Vec<T>,
    labels: Vec<usize>,
    classes: Vec<String>,
    height: usize,
    width: usize,
    seed: u64,
    asked: usize,
) -> (r: PreparedImages<T>)
    requires
        images@.len() == labels@.len(),
        images@.len() >= 1,
    ensures
        is_split_of(
            r.split,
            images@,
            labels@,
            seed,
            image_val_count(asked as int, images@.len() as int),
        ),
        1 <= asked < images@.len() ==> r.split.val_x@.len() == asked,
        r.split.val_x@.len() + r.split.train_x@.len() == images@.len(),
        r.split.train_x@.len() >= 1,
        r.classes == classes,
        r.height == height,
        r.width == width,
{
    proof {
        rng::law_shuffle_follows_order(images@, shuffle_seed(seed));
    }
    let at_least = if asked < 1 {
        1
    } else {
        asked
    };
    let most = images.len() - 1;
    let n_val = if at_least < most {
        at_least
    } else {
        most
    };
    let split = shuffle_split(images, labels, seed, n_val);
    PreparedImages { split, classes, height, width }
}

/// A split loses no row: the validation rows followed by the training rows are
/// all rows, each once, and every row keeps its label.
pub proof fn law_split_keeps_rows<T>(
    split: Split<T>,
    x: Seq<T>,
    y: Seq<usize>,
    seed: u64,
    n_val: int,
)
    requires
        x.len() == y.len(),
        0 <= n_val <= x.len(),
        is_split_of(split, x, y, seed, n_val),
    ensures
        split.val_x@.len() == n_val,
        split.val_x@.len() == split.val_y@.len(),
        split.train_x@.len() == split.train_y@.len(),
        (split.val_x@ + split.train_x@).to_multiset() == x.to_multiset(),
        forall|k: int|
            0 <= k < x.len() ==> {
                let from = rng::order(x.len(), shuffle_seed(seed))[k];
                &&& 0 <= from < x.len()
                &&& #[trigger] (split.val_x@ + split.train_x@)[k] == x[from]
                &&& (split.val_y@ + split.train_y@)[k] == y[from]
            },
{
    let s = shuffle_seed(seed);
    rng::law_shuffle_follows_order(x, s);
    rng::law_shuffle_follows_order(y, s);
    rng::law_shuffle_keeps_contents(x, s);
    rng::law_order_is_permutation(x.len(), s);
    assert(split.val_x@ + split.train_x@ =~= rng::shuffled(x, s));
    assert(split.val_y@ + split.train_y@ =~= rng::shuffled(y, s));
}

/// With two images or more both parts of a split hold one at least.
pub proof fn law_image_split_nonempty(asked: int, total: int)
    requires
        total >= 2,
    ensures
        1 <= image_val_count(asked, total) < total,
{
}

/// The validation part of a table has as many rows as were asked for, or one where
/// none was; the training part has all the others.
pub proof fn law_table_split_sizes<T>(
    split: Split<T>,
    x: Seq<T>,
    y: Seq<usize>,
    seed: u64,
    asked: int,
)
    requires
        x.len() == y.len(),
        0 <= asked <= x.len(),
        1 <= x.len(),
        is_split_of(split, x, y, seed, table_val_count(asked)),
    ensures
        asked >= 1 ==> split.val_x@.len() == asked,
        asked == 0 ==> split.val_x@.len() == 1,
        split.val_x@.len() + split.train_x@.len() == x.len(),
        split.val_y@.len() == split.val_x@.len(),
        split.train_y@.len() == split.train_x@.len(),
{
    rng::law_shuffle_follows_order(x, shuffle_seed(seed));
    rng::law_shuffle_follows_order(y, shuffle_seed(seed));
}

/// The validation part of a set of images has as many images as were asked for,
/// or one where none was, as long as one is left to train on; the training part
/// has all the others, and is never empty.
pub proof fn law_image_split_sizes<T>(
    split: Split<T>,
    x: Seq<T>,
    y: Seq<usize>,
    seed: u64,
    asked: int,
)
    requires
        x.len() == y.len(),
        0 <= asked,
        1 <= x.len(),
        is_split_of(split, x, y, seed, image_val_count(asked, x.len() as int)),
    ensures
        1 <= asked < x.len() ==> split.val_x@.len() == asked,
        asked == 0 && x.len() >= 2 ==> split.val_x@.len() == 1,
        asked >= x.len() ==> split.train_x@.len() == 1,
        split.train_x@.len() >= 1,
        split.val_x@.len() + split.train_x@.len() == x.len(),
        split.val_y@.len() == split.val_x@.len(),
        split.train_y@.len() == split.train_x@.len(),
{
    rng::law_shuffle_follows_order(x, shuffle_seed(seed));
    rng::law_shuffle_follows_order(y, shuffle_seed(seed));
}

/// Runs with different seeds shuffle with different seeds, and no run shuffles
/// with its own.
pub proof fn law_shuffle_seeds_differ(a: u64, b: u64)
    ensures
        a != b ==> shuffle_seed(a) != shuffle_seed(b),
        shuffle_seed(a) != a,
        shuffle_seed(shuffle_seed(a)) == a,
        shuffle_seed(a) ^ a == 0xABCD,
{
    assert((a ^ 0xABCD) ^ a == 0xABCD) by (bit_vector);
    assert(a != b ==> a ^ 0xABCD != b ^ 0xABCD) by (bit_vector);
    assert(a ^ 0xABCD != a) by (bit_vector);
    assert((a ^ 0xABCD) ^ 0xABCD == a) by (bit_vector);
}

proof fn lemma_filled_rows_add(a: Seq<Seq<char>>, b: Seq<Seq<char>>)
    ensures
        filled_rows(a + b) == filled_rows(a) + filled_rows(b),
    decreases b.len(),
{
    if b.len() == 0 {
        assert(a + b =~= a);
        assert(filled_rows(a) + filled_rows(b) =~= filled_rows(a));
    } else {
        lemma_filled_rows_add(a, b.drop_last());
        assert((a + b).drop_last() =~= a + b.drop_last());
        assert((a + b).last() == b.last());
        assert(filled_rows(a + b) =~= filled_rows(a) + filled_rows(b));
    }
}

/// The rows of a text are those of its lines, one after the other; a line that holds
/// more than white space is one row, and any other is none.
pub proof fn law_rows_line_by_line(a: Seq<char>, b: Seq<char>, line: Seq<char>)
    requires
        !line.contains('\n'),
    ensures
        csv_rows(a + seq!['\n'] + b) == csv_rows(a) + csv_rows(b),
        (exists|i: int| 0 <= i < line.len() && !text::white_space(#[trigger] line[i])) ==> csv_rows(
            line,
        ) == seq![cells(line)],
        (forall|i: int| 0 <= i < line.len() ==> text::white_space(#[trigger] line[i])) ==> csv_rows(
            line,
        ).len() == 0,
{
    text::law_split_at_a_separator(a, '\n', b);
    lemma_filled_rows_add(text::split_on(a, '\n'), text::split_on(b, '\n'));
    text::lemma_split_none(line, '\n');
    text::law_trim(line);
    assert(seq![line].drop_last() =~= Seq::<Seq<char>>::empty());
    assert(seq![line].last() == line);
    reveal_with_fuel(filled_rows, 2);
    assert(!is_blank(line) ==> csv_rows(line) =~= seq![cells(line)]);
}

/// The cells of a line are those before a comma and those after it; a piece without
/// a comma is one cell, without white space at its ends.
pub proof fn law_cells_between_commas(a: Seq<char>, b: Seq<char>, piece: Seq<char>)
    requires
        !piece.contains(','),
    ensures
        cells(a + seq![','] + b) == cells(a) + cells(b),
        cells(piece) == seq![text::trim(piece)],
{
    text::law_split_at_a_separator(a, ',', b);
    text::lemma_split_none(piece, ',');
    assert(cells(a + seq![','] + b) =~= cells(a) + cells(b));
    assert(cells(piece) =~= seq![text::trim(piece)]);
}

} // verus!

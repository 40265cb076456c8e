//! A text report engine: rows of text placed in columns, each column padded to its width
//! with the text aligned to the left, the center or the right.
use crate::decimal::{decimal, unsigned_text};
use vstd::prelude::*;
use vstd::utf8::encode_utf8;

verus! {

/// The error of the text report module: a message.
#[derive(Debug)]
pub struct Error(pub String);

impl Error {
    /// Creates the error, its message prefixed by `text: `.
    pub fn from_message(message: &str) -> (r: Error)
        ensures
            r.0@ == "text: "@ + message@,
    {
        let text = String::from_str("text: ");
        Error(text.concat(message))
    }

    /// The message of the error.
    pub fn into_message(self) -> (r: String)
        ensures
            r@ == self.0@,
    {
        self.0
    }
}

/// The alignment of text in a column.
#[derive(Debug, Clone, Copy, PartialEq, Eq, Structural)]
pub enum Alignment {
    /// Text is aligned on the left hand side of a column.
    Left,
    /// Text is centered in a column.
    Center,
    /// Text is aligned on the right hand side of a column.
    Right,
    /// Text is left as it is, without padding.
    AsIs,
}

/// The name of an alignment.
pub open spec fn alignment_name(alignment: Alignment) -> Seq<char> {
    match alignment {
        Alignment::Left => "Left"@,
        Alignment::Center => "Center"@,
        Alignment::Right => "Right"@,
        Alignment::AsIs => "None"@,
    }
}

impl Alignment {
    /// The name of the alignment.
    pub fn name(&self) -> (r: String)
        ensures
            r@ == alignment_name(*self),
    {
        match self {
            Alignment::Left => String::from_str("Left"),
            Alignment::Center => String::from_str("Center"),
            Alignment::Right => String::from_str("Right"),
            Alignment::AsIs => String::from_str("None"),
        }
    }
}

/// A character repeated `n` times.
pub open spec fn repeated(c: char, n: nat) -> Seq<char> {
    Seq::new(n, |_i: int| c)
}

/// The text padded with spaces to `width` characters, placed as the alignment says; text
/// as wide as `width` or wider is left unchanged.
pub open spec fn aligned(text: Seq<char>, width: nat, alignment: Alignment) -> Seq<char> {
    let pad: nat = if text.len() < width {
        (width - text.len()) as nat
    } else {
        0
    };
    match alignment {
        Alignment::Left => text + repeated(' ', pad),
        Alignment::Right => repeated(' ', pad) + text,
        Alignment::Center => repeated(' ', pad / 2) + text + repeated(' ', (pad - pad / 2) as nat),
        Alignment::AsIs => text,
    }
}

/// The one-character text of a character (`ToString` of `char`).
#[verifier::external_body]
fn char_text(c: char) -> (r: String)
    ensures
        r@ == seq![c],
{
    c.to_string()
}

/// Appends `n` copies of the one-character text `piece`.
fn push_copies(out: &mut String, piece: &str, n: usize)
    requires
        piece@.len() == 1,
    ensures
        final(out)@ == old(out)@ + repeated(piece@[0], n as nat),
{
    let ghost start = out@;
    let mut k: usize = 0;
    assert(start + repeated(piece@[0], 0) =~= start);
    while k < n
        invariant
            k <= n,
            piece@.len() == 1,
            out@ == start + repeated(piece@[0], k as nat),
        decreases n - k,
    {
        out.append(piece);
        assert(start + repeated(piece@[0], (k + 1) as nat) =~= start + repeated(piece@[0], k as nat) + piece@);
        k = k + 1;
    }
}

/// Creates text aligned to a minimum width; text as wide or wider is not truncated.
pub fn align_text(value: &str, width: usize, alignment: Alignment) -> (r: String)
    ensures
        r@ == aligned(value@, width as nat, alignment),
{
    proof {
        reveal_strlit(" ");
    }
    let len = value.unicode_len();
    let pad: usize = if len < width {
        width - len
    } else {
        0
    };
    match alignment {
        Alignment::Left => {
            let mut out = String::from_str(value);
            push_copies(&mut out, " ", pad);
            out
        },
        Alignment::Right => {
            let mut out = String::new();
            push_copies(&mut out, " ", pad);
            out.append(value);
            out
        },
        Alignment::Center => {
            let mut out = String::new();
            push_copies(&mut out, " ", pad / 2);
            out.append(value);
            push_copies(&mut out, " ", pad - pad / 2);
            out
        },
        Alignment::AsIs => String::from_str(value),
    }
}

/// The description of a report column: its width and the default alignment of its text.
#[derive(Debug)]
pub struct ColumnDescription {
    /// The width of the column.
    pub width: usize,
    /// The alignment of text that names none of its own.
    pub default_alignment: Alignment,
}

impl ColumnDescription {
    /// A column description of width 0 with the alignment.
    pub fn from_alignment(alignment: Alignment) -> (r: ColumnDescription)
        ensures
            r.width == 0,
            r.default_alignment == alignment,
    {
        ColumnDescription { width: 0, default_alignment: alignment }
    }

    /// The column description with its width set.
    pub fn with_width(self, minimum_width: usize) -> (r: ColumnDescription)
        ensures
            r.width == minimum_width,
            r.default_alignment == self.default_alignment,
    {
        ColumnDescription { width: minimum_width, default_alignment: self.default_alignment }
    }
}

/// A collection of column descriptions.
pub struct ColumnDescriptions(pub Vec<ColumnDescription>);

impl ColumnDescriptions {
    /// One column description of width 0 for each alignment, in order.
    pub fn from_alignments(alignments: Vec<Alignment>) -> (r: ColumnDescriptions)
        ensures
            r.0@.len() == alignments@.len(),
            forall|i: int|
                0 <= i < alignments@.len() ==> (#[trigger] r.0@[i]).width == 0
                    && r.0@[i].default_alignment == alignments@[i],
    {
        let mut descriptions: Vec<ColumnDescription> = Vec::new();
        let mut i: usize = 0;
        while i < alignments.len()
            invariant
                i <= alignments@.len(),
                descriptions@.len() == i,
                forall|j: int|
                    0 <= j < i ==> (#[trigger] descriptions@[j]).width == 0
                        && descriptions@[j].default_alignment == alignments@[j],
            decreases alignments.len() - i,
        {
            descriptions.push(ColumnDescription::from_alignment(alignments[i]));
            i = i + 1;
        }
        ColumnDescriptions(descriptions)
    }

    /// The collection holding the column descriptions.
    pub fn from_descriptions(column_descriptions: Vec<ColumnDescription>) -> (r: ColumnDescriptions)
        ensures
            r.0 == column_descriptions,
    {
        ColumnDescriptions(column_descriptions)
    }
}

/// A container for the text of a column, with the alignment it asks for, if any.
#[derive(Debug)]
pub struct Column {
    /// The column text.
    pub text: String,
    /// The text alignment; without one the column description's default applies.
    pub alignment: Option<Alignment>,
}

impl Column {
    /// A column holding the text, with no alignment of its own.
    pub fn from_string(text: String) -> (r: Column)
        ensures
            r.text == text,
            r.alignment is None,
    {
        Column { text, alignment: None }
    }

    /// A column holding a copy of the text, with no alignment of its own.
    pub fn from_text(text: &str) -> (r: Column)
        ensures
            r.text@ == text@,
            r.alignment is None,
    {
        Column::from_string(String::from_str(text))
    }

    /// The column with its alignment set.
    pub fn with_alignment(self, alignment: Alignment) -> (r: Column)
        ensures
            r.text == self.text,
            r.alignment == Some(alignment),
    {
        Column { text: self.text, alignment: Some(alignment) }
    }
}

/// A collection of columns.
pub struct Columns(pub Vec<Column>);

impl Columns {
    /// One column for each text, in order, with no alignment of its own.
    pub fn from_strs(texts: Vec<&str>) -> (r: Columns)
        ensures
            r.0@.len() == texts@.len(),
            forall|i: int|
                0 <= i < texts@.len() ==> (#[trigger] r.0@[i]).text@ == texts@[i]@
                    && r.0@[i].alignment is None,
    {
        let mut columns: Vec<Column> = Vec::new();
        let mut i: usize = 0;
        while i < texts.len()
            invariant
                i <= texts@.len(),
                columns@.len() == i,
                forall|j: int|
                    0 <= j < i ==> (#[trigger] columns@[j]).text@ == texts@[j]@
                        && columns@[j].alignment is None,
            decreases texts.len() - i,
        {
            columns.push(Column::from_text(texts[i]));
            i = i + 1;
        }
        Columns(columns)
    }

    /// One column for each text, in order, with no alignment of its own.
    pub fn from_strings(texts: Vec<String>) -> (r: Columns)
        ensures
            r.0@.len() == texts@.len(),
            forall|i: int|
                0 <= i < texts@.len() ==> (#[trigger] r.0@[i]).text@ == texts@[i]@
                    && r.0@[i].alignment is None,
    {
        let mut columns: Vec<Column> = Vec::new();
        let mut i: usize = 0;
        while i < texts.len()
            invariant
                i <= texts@.len(),
                columns@.len() == i,
                forall|j: int|
                    0 <= j < i ==> (#[trigger] columns@[j]).text@ == texts@[j]@
                        && columns@[j].alignment is None,
            decreases texts.len() - i,
        {
            columns.push(Column::from_text(texts[i].as_str()));
            i = i + 1;
        }
        Columns(columns)
    }
}

/// The kind of a report line.
#[derive(Debug, PartialEq, Eq, Structural)]
pub enum RowID {
    /// A header line.
    Header,
    /// A detail line.
    Detail,
    /// A line whose columns are filled with the separator character.
    Separator(char),
}

impl RowID {
    /// The row is a separator.
    pub fn is_separator(&self) -> (r: bool)
        ensures
            r == (*self is Separator),
    {
        match self {
            RowID::Header | RowID::Detail => false,
            _ => true,
        }
    }
}

/// A row of the report: its kind, its columns, and the alignment given to columns added
/// to it that name none of their own.
#[derive(Debug)]
pub struct Row {
    /// The kind of the row.
    pub id: RowID,
    /// The columns of the row.
    pub columns: Vec<Column>,
    /// The alignment for added columns that name none.
    pub alignment: Option<Alignment>,
}

/// The column as a row with the alignment holds it once added.
pub open spec fn defaulted(column: Column, alignment: Option<Alignment>) -> Column {
    if alignment is Some && column.alignment is None {
        Column { text: column.text, alignment: alignment }
    } else {
        column
    }
}

/// The columns as a row with the alignment holds them once added.
pub open spec fn all_defaulted(columns: Seq<Column>, alignment: Option<Alignment>) -> Seq<Column> {
    columns.map_values(|c: Column| defaulted(c, alignment))
}

impl Row {
    /// An empty row of the kind.
    pub fn from_id(id: RowID) -> (r: Row)
        ensures
            r.id == id,
            r.columns@.len() == 0,
            r.alignment is None,
    {
        Row { id, columns: Vec::new(), alignment: None }
    }

    /// Adds a column; one with no alignment of its own takes the row's alignment, if any.
    pub fn add(&mut self, column: Column) -> (r: &mut Self)
        ensures
            r.id == old(self).id,
            r.alignment == old(self).alignment,
            r.columns@ == old(self).columns@.push(defaulted(column, old(self).alignment)),
            *final(self) == *final(r),
    {
        let mut column = column;
        if let Some(default_alignment) = self.alignment {
            if column.alignment.is_none() {
                column.alignment = Some(default_alignment);
            }
        }
        self.columns.push(column);
        self
    }

    /// Adds each of the columns, in order, as `add` does.
    pub fn add_columns(&mut self, columns: Columns) -> (r: &mut Self)
        ensures
            r.id == old(self).id,
            r.alignment == old(self).alignment,
            r.columns@ == old(self).columns@ + all_defaulted(columns.0@, old(self).alignment),
            *final(self) == *final(r),
    {
        let ghost start = self.columns@;
        let ghost given = columns.0@;
        let mut rest = columns.0;
        let mut k: usize = 0;
        let total = rest.len();
        assert(all_defaulted(given.take(0), self.alignment) =~= Seq::<Column>::empty());
        while rest.len() > 0
            invariant
                k + rest@.len() == total,
                total == given.len(),
                rest@ == given.skip(k as int),
                self.id == old(self).id,
                self.alignment == old(self).alignment,
                self.columns@ == start + all_defaulted(given.take(k as int), self.alignment),
            decreases rest.len(),
        {
            let column = rest.remove(0);
            self.add(column);
            proof {
                assert(given.take(k + 1) =~= given.take(k as int).push(given[k as int]));
                assert(all_defaulted(given.take(k + 1), self.alignment) =~= all_defaulted(
                    given.take(k as int),
                    self.alignment,
                ).push(defaulted(given[k as int], self.alignment)));
                assert(rest@ =~= given.skip(k + 1));
            }
            k = k + 1;
        }
        assert(given.take(k as int) =~= given);
        self
    }

    /// The row with its alignment for added columns set.
    pub fn with_alignment(self, alignment: Alignment) -> (r: Row)
        ensures
            r.id == self.id,
            r.columns == self.columns,
            r.alignment == Some(alignment),
    {
        Row { id: self.id, columns: self.columns, alignment: Some(alignment) }
    }

    /// The row with the column added, as `add` does.
    pub fn with_column(self, column: Column) -> (r: Row)
        ensures
            r.id == self.id,
            r.alignment == self.alignment,
            r.columns@ == self.columns@.push(defaulted(column, self.alignment)),
    {
        let mut row = self;
        row.add(column);
        row
    }

    /// The row with the columns added, as `add_columns` does.
    pub fn with_columns(self, columns: Columns) -> (r: Row)
        ensures
            r.id == self.id,
            r.alignment == self.alignment,
            r.columns@ == self.columns@ + all_defaulted(columns.0@, self.alignment),
    {
        let mut row = self;
        row.add_columns(columns);
        row
    }

    /// The number of columns in the row.
    pub fn len(&self) -> (r: usize)
        ensures
            r == self.columns@.len(),
    {
        self.columns.len()
    }

    /// The column at the index, if the row has one there.
    pub fn get_column(&self, index: usize) -> (r: Option<&Column>)
        ensures
            r == (if index < self.columns@.len() {
                Some(&self.columns@[index as int])
            } else {
                None
            }),
    {
        if index < self.columns.len() {
            Some(&self.columns[index])
        } else {
            None
        }
    }
}

/// The width of a text as `str::len` gives it: the length of its UTF-8 encoding.
pub open spec fn byte_len(text: Seq<char>) -> usize {
    encode_utf8(text).len() as usize
}

/// The text of a column as its description formats it: aligned to the description's width
/// unless the width is 0 or the text is as wide already.
pub open spec fn formatted_column(column: Column, description: ColumnDescription) -> Seq<char> {
    if description.width == 0 || byte_len(column.text@) >= description.width {
        column.text@
    } else {
        aligned(
            column.text@,
            description.width as nat,
            match column.alignment {
                Some(a) => a,
                None => description.default_alignment,
            },
        )
    }
}

/// A row fits descriptions of `count` columns: it is a separator or has as many columns.
pub open spec fn fits(count: nat, row: Row) -> bool {
    row.id is Separator || row.columns@.len() == count
}

/// The column texts of a fitting row: the separator repeated to each column's width, or
/// each column formatted by its description.
pub open spec fn formatted_row(descriptions: Seq<ColumnDescription>, row: Row) -> Seq<Seq<char>> {
    match row.id {
        RowID::Separator(c) => Seq::new(descriptions.len(), |i: int| repeated(c, descriptions[i].width as nat)),
        _ => Seq::new(descriptions.len(), |i: int| formatted_column(row.columns@[i], descriptions[i])),
    }
}

/// The message of a row whose column count differs from its description's.
pub open spec fn count_message(row_count: nat, description_count: nat) -> Seq<char> {
    "text: Row column count ("@ + decimal(row_count) + ") != Row description count ("@ + decimal(
        description_count,
    ) + ")"@
}

/// The description of the columns of a report row.
#[derive(Debug)]
pub struct RowDescription(pub Vec<ColumnDescription>);

impl RowDescription {
    /// A row description of the one column.
    pub fn from_column(column: ColumnDescription) -> (r: RowDescription)
        ensures
            r.0@ == seq![column],
    {
        RowDescription(vec![column])
    }

    /// A row description of the columns.
    pub fn from_columns(columns: Vec<ColumnDescription>) -> (r: RowDescription)
        ensures
            r.0 == columns,
    {
        RowDescription(columns)
    }

    /// A row description of the collection's columns.
    pub fn from_descriptions(column_descriptions: ColumnDescriptions) -> (r: RowDescription)
        ensures
            r.0 == column_descriptions.0,
    {
        RowDescription(column_descriptions.0)
    }

    /// The number of columns described.
    pub fn len(&self) -> (r: usize)
        ensures
            r == self.0@.len(),
    {
        self.0.len()
    }

    /// Appends the column descriptions.
    pub fn add_columns(&mut self, columns: ColumnDescriptions) -> (r: &mut Self)
        ensures
            r.0@ == old(self).0@ + columns.0@,
            *final(self) == *final(r),
    {
        let mut columns = columns;
        self.0.append(&mut columns.0);
        self
    }

    /// The description of the column at the index, if there is one.
    pub fn get_column_description(&self, column: usize) -> (r: Option<&ColumnDescription>)
        ensures
            r == (if column < self.0@.len() {
                Some(&self.0@[column as int])
            } else {
                None
            }),
    {
        if column < self.0.len() {
            Some(&self.0[column])
        } else {
            None
        }
    }

    /// Formats each column of the row by its description; a row that is not a separator
    /// must have as many columns as the description.
    pub fn format_row(&self, row: &Row) -> (r: Result<Vec<String>, Error>)
        ensures
            r is Ok <==> fits(self.0@.len(), *row),
            r matches Ok(columns) ==> columns@.len() == self.0@.len() && forall|i: int|
                0 <= i < self.0@.len() ==> (#[trigger] columns@[i])@ == formatted_row(self.0@, *row)[i],
            r matches Err(e) ==> e.0@ == count_message(row.columns@.len(), self.0@.len()),
    {
        if !row.id.is_separator() && row.len() != self.len() {
            let text = String::from_str("text: Row column count (");
            let text = text.concat(unsigned_text(row.len() as u64).as_str());
            let text = text.concat(") != Row description count (");
            let text = text.concat(unsigned_text(self.len() as u64).as_str());
            let text = text.concat(")");
            Err(Error(text))
        } else {
            let mut columns: Vec<String> = Vec::new();
            let mut i: usize = 0;
            while i < self.0.len()
                invariant
                    i <= self.0@.len(),
                    fits(self.0@.len(), *row),
                    columns@.len() == i,
                    forall|j: int|
                        0 <= j < i ==> (#[trigger] columns@[j])@ == formatted_row(self.0@, *row)[j],
                decreases self.0.len() - i,
            {
                let description = &self.0[i];
                let text = match row.id {
                    RowID::Separator(separator) => {
                        let piece = char_text(separator);
                        let mut out = String::new();
                        push_copies(&mut out, piece.as_str(), description.width);
                        out
                    },
                    _ => {
                        let column = &row.columns[i];
                        if description.width == 0 || column.text.as_str().len() >= description.width {
                            column.text.clone()
                        } else {
                            let alignment = match column.alignment {
                                Some(a) => a,
                                None => description.default_alignment,
                            };
                            align_text(column.text.as_str(), description.width, alignment)
                        }
                    },
                };
                columns.push(text);
                i = i + 1;
            }
            Ok(columns)
        }
    }
}

/// The column descriptions once a row is added: with auto-sizing on, each column of a row
/// that is not a separator widens its description to the text's `str::len`.
pub open spec fn widened(descriptions: Seq<ColumnDescription>, row: Row, auto_size: bool) -> Seq<
    ColumnDescription,
> {
    if !auto_size || row.id is Separator {
        descriptions
    } else {
        Seq::new(
            descriptions.len(),
            |i: int|
                ColumnDescription {
                    width: if descriptions[i].width >= byte_len(row.columns@[i].text@) {
                        descriptions[i].width
                    } else {
                        byte_len(row.columns@[i].text@)
                    },
                    default_alignment: descriptions[i].default_alignment,
                },
        )
    }
}

/// The column descriptions once the rows are added in order.
pub open spec fn widened_all(descriptions: Seq<ColumnDescription>, rows: Seq<Row>, auto_size: bool) -> Seq<
    ColumnDescription,
>
    decreases rows.len(),
{
    if rows.len() == 0 {
        descriptions
    } else {
        widened(widened_all(descriptions, rows.drop_last(), auto_size), rows.last(), auto_size)
    }
}

/// The message of a row added to a report whose description counts other columns.
pub open spec fn mismatch_message(row_count: nat, description_count: nat) -> Seq<char> {
    "text: Row columns ("@ + decimal(row_count) + ") do not match row description columns ("@
        + decimal(description_count) + ")"@
}

/// The index of the first row that does not fit, if any.
pub open spec fn first_misfit(count: nat, rows: Seq<Row>, k: int) -> bool {
    0 <= k < rows.len() && !fits(count, rows[k]) && forall|j: int| 0 <= j < k ==> fits(count, #[trigger] rows[j])
}

/// The text of a report line: the formatted columns joined by single spaces.
pub open spec fn joined(parts: Seq<Seq<char>>) -> Seq<char>
    decreases parts.len(),
{
    if parts.len() == 0 {
        Seq::empty()
    } else if parts.len() == 1 {
        parts[0]
    } else {
        joined(parts.drop_last()) + seq![' '] + parts.last()
    }
}

/// The line of a fitting row.
pub open spec fn line_of(descriptions: Seq<ColumnDescription>, row: Row) -> Seq<char> {
    joined(formatted_row(descriptions, row))
}

/// The texts of the strings.
pub open spec fn texts(strings: Seq<String>) -> Seq<Seq<char>> {
    strings.map_values(|s: String| s@)
}

/// Joins the texts with single spaces.
fn join_columns(columns: &Vec<String>) -> (r: String)
    ensures
        r@ == joined(texts(columns@)),
{
    let mut out = String::new();
    let mut i: usize = 0;
    proof {
        reveal_strlit(" ");
        assert(texts(columns@.take(0)) =~= Seq::<Seq<char>>::empty());
    }
    while i < columns.len()
        invariant
            i <= columns@.len(),
            out@ == joined(texts(columns@.take(i as int))),
        decreases columns.len() - i,
    {
        proof {
            reveal_strlit(" ");
            assert(texts(columns@.take(i + 1)).drop_last() =~= texts(columns@.take(i as int)));
            assert(texts(columns@.take(i + 1)).last() == columns@[i as int]@);
        }
        if i > 0 {
            out.append(" ");
        }
        out.append(columns[i].as_str());
        i = i + 1;
    }
    assert(columns@.take(i as int) =~= columns@);
    out
}

/// The line of a row, if the row fits the description.
fn row_line(description: &RowDescription, row: &Row) -> (r: Option<String>)
    ensures
        r is Some <==> fits(description.0@.len(), *row),
        r matches Some(line) ==> line@ == line_of(description.0@, *row),
{
    match description.format_row(row) {
        Ok(columns) => {
            assert(texts(columns@) =~= formatted_row(description.0@, *row));
            Some(join_columns(&columns))
        },
        Err(_) => None,
    }
}

/// Aligned text is never truncated: it holds the text unchanged, after the left padding,
/// and is exactly as wide as the width or the text, whichever is wider (left as it is, the
/// text is unchanged).
pub proof fn lemma_aligned_keeps_text(text: Seq<char>, width: nat, alignment: Alignment) -> (offset: int)
    ensures
        0 <= offset,
        offset + text.len() <= aligned(text, width, alignment).len(),
        aligned(text, width, alignment).subrange(offset, offset + text.len()) == text,
        alignment != Alignment::AsIs ==> aligned(text, width, alignment).len() == if text.len() < width {
            width
        } else {
            text.len()
        },
        alignment == Alignment::AsIs ==> aligned(text, width, alignment) == text,
        forall|i: int|
            0 <= i < aligned(text, width, alignment).len() && !(offset <= i < offset + text.len())
                ==> #[trigger] aligned(text, width, alignment)[i] == ' ',
{
    let pad: nat = if text.len() < width {
        (width - text.len()) as nat
    } else {
        0
    };
    let r = aligned(text, width, alignment);
    match alignment {
        Alignment::Left => {
            assert(r.subrange(0, text.len() as int) =~= text);
            0
        },
        Alignment::Right => {
            assert(r.subrange(pad as int, (pad + text.len()) as int) =~= text);
            pad as int
        },
        Alignment::Center => {
            assert(r.subrange((pad / 2) as int, (pad / 2 + text.len()) as int) =~= text);
            (pad / 2) as int
        },
        Alignment::AsIs => {
            assert(r.subrange(0, text.len() as int) =~= text);
            0
        },
    }
}

/// Adding a row never narrows a column.
pub proof fn lemma_widened_never_narrows(descriptions: Seq<ColumnDescription>, row: Row, auto_size: bool)
    requires
        fits(descriptions.len(), row),
    ensures
        widened(descriptions, row, auto_size).len() == descriptions.len(),
        forall|i: int|
            0 <= i < descriptions.len() ==> (#[trigger] widened(descriptions, row, auto_size)[i]).width
                >= descriptions[i].width && widened(descriptions, row, auto_size)[i].default_alignment
                == descriptions[i].default_alignment,
{
}

/// With auto-sizing on, once fitting rows are added every column is at least as wide as it
/// was and as the `str::len` of the column's text in each added row that is not a separator.
pub proof fn lemma_autosize_covers_rows(descriptions: Seq<ColumnDescription>, rows: Seq<Row>)
    requires
        forall|k: int| 0 <= k < rows.len() ==> fits(descriptions.len(), #[trigger] rows[k]),
    ensures
        widened_all(descriptions, rows, true).len() == descriptions.len(),
        forall|i: int|
            0 <= i < descriptions.len() ==> (#[trigger] widened_all(descriptions, rows, true)[i]).width
                >= descriptions[i].width && widened_all(descriptions, rows, true)[i].default_alignment
                == descriptions[i].default_alignment,
        forall|k: int, i: int|
            0 <= k < rows.len() && !(rows[k].id is Separator) && 0 <= i < descriptions.len()
                ==> widened_all(descriptions, rows, true)[i].width >= byte_len(
                #[trigger] rows[k].columns@[i].text@,
            ),
    decreases rows.len(),
{
    if rows.len() > 0 {
        let front = rows.drop_last();
        assert forall|k: int| 0 <= k < front.len() implies fits(descriptions.len(), #[trigger] front[k]) by {
            assert(front[k] == rows[k]);
        }
        lemma_autosize_covers_rows(descriptions, front);
        let before = widened_all(descriptions, front, true);
        assert(fits(descriptions.len(), rows[rows.len() - 1]));
        lemma_widened_never_narrows(before, rows.last(), true);
        assert forall|k: int, i: int|
            0 <= k < rows.len() && !(rows[k].id is Separator) && 0 <= i < descriptions.len()
                implies widened_all(descriptions, rows, true)[i].width >= byte_len(
            #[trigger] rows[k].columns@[i].text@,
        ) by {
            if k < rows.len() - 1 {
                assert(front[k] == rows[k]);
                assert(before[i].width >= byte_len(front[k].columns@[i].text@));
            }
        }
    }
}

/// A text report: the description of its columns, its rows, and whether adding a row
/// widens the columns to fit it.
pub struct Report {
    /// The description of the report's columns.
    pub row_description: RowDescription,
    /// The rows of the report.
    pub content: Vec<Row>,
    /// Adding a row widens each column description to the row's text.
    pub auto_size: bool,
}

impl Report {
    /// An empty, auto-sizing report with the row description.
    pub fn from_row_description(row_description: RowDescription) -> (r: Report)
        ensures
            r.row_description == row_description,
            r.content@.len() == 0,
            r.auto_size,
    {
        Report { row_description, content: Vec::new(), auto_size: true }
    }

    /// An empty, auto-sizing report with the column descriptions.
    pub fn from_descriptions(columns_descriptions: Vec<ColumnDescription>) -> (r: Report)
        ensures
            r.row_description.0 == columns_descriptions,
            r.content@.len() == 0,
            r.auto_size,
    {
        Report::from_row_description(RowDescription::from_columns(columns_descriptions))
    }

    /// An empty, auto-sizing report with a column of width 0 for each alignment.
    pub fn from_alignments(alignments: Vec<Alignment>) -> (r: Report)
        ensures
            r.row_description.0@.len() == alignments@.len(),
            forall|i: int|
                0 <= i < alignments@.len() ==> (#[trigger] r.row_description.0@[i]).width == 0
                    && r.row_description.0@[i].default_alignment == alignments@[i],
            r.content@.len() == 0,
            r.auto_size,
    {
        Report::from_row_description(RowDescription::from_descriptions(ColumnDescriptions::from_alignments(alignments)))
    }

    /// The report with auto-sizing set.
    pub fn with_autosize(self, auto_size: bool) -> (r: Report)
        ensures
            r.row_description == self.row_description,
            r.content == self.content,
            r.auto_size == auto_size,
    {
        Report { row_description: self.row_description, content: self.content, auto_size }
    }

    /// Widens the column descriptions to a fitting row, as `widened` says.
    fn widen(&mut self, row: &Row)
        requires
            fits(old(self).row_description.0@.len(), *row),
        ensures
            final(self).row_description.0@ == widened(old(self).row_description.0@, *row, old(self).auto_size),
            final(self).content == old(self).content,
            final(self).auto_size == old(self).auto_size,
    {
        if self.auto_size && !row.id.is_separator() {
            let ghost start = self.row_description.0@;
            let mut column: usize = 0;
            while column < self.row_description.0.len()
                invariant
                    self.auto_size,
                    !(row.id is Separator),
                    start.len() == row.columns@.len(),
                    self.row_description.0@.len() == start.len(),
                    self.content == old(self).content,
                    self.auto_size == old(self).auto_size,
                    column <= start.len(),
                    forall|j: int|
                        0 <= j < start.len() ==> #[trigger] self.row_description.0@[j] == if j < column {
                            widened(start, *row, true)[j]
                        } else {
                            start[j]
                        },
                decreases start.len() - column,
            {
                let width = self.row_description.0[column].width;
                let default_alignment = self.row_description.0[column].default_alignment;
                let text_width = row.columns[column].text.as_str().len();
                let new_width = if width >= text_width {
                    width
                } else {
                    text_width
                };
                self.row_description.0.set(column, ColumnDescription { width: new_width, default_alignment });
                column = column + 1;
            }
            assert(self.row_description.0@ =~= widened(start, *row, true));
        }
    }

    /// Adds a row; one that is not a separator must have as many columns as the
    /// description, and with auto-sizing on widens the column descriptions to fit it.
    pub fn add(&mut self, row: Row) -> (r: Result<&mut Self, Error>)
        ensures
            r is Ok <==> fits(old(self).row_description.0@.len(), row),
            r matches Ok(report) ==> {
                &&& report.row_description.0@ == widened(old(self).row_description.0@, row, old(self).auto_size)
                &&& report.content@ == old(self).content@.push(row)
                &&& report.auto_size == old(self).auto_size
                &&& *final(self) == *final(report)
            },
            r matches Err(e) ==> {
                &&& e.0@ == mismatch_message(row.columns@.len(), old(self).row_description.0@.len())
                &&& *final(self) == *old(self)
            },
    {
        if !row.id.is_separator() && self.row_description.len() != row.len() {
            let text = String::from_str("text: Row columns (");
            let text = text.concat(unsigned_text(row.len() as u64).as_str());
            let text = text.concat(") do not match row description columns (");
            let text = text.concat(unsigned_text(self.row_description.len() as u64).as_str());
            let text = text.concat(")");
            return Err(Error(text));
        }
        self.widen(&row);
        self.content.push(row);
        Ok(self)
    }

    /// Adds the rows in order, as `add` does; the first row that does not fit fails it.
    pub fn with_rows(self, rows: Vec<Row>) -> (r: Result<Report, Error>)
        ensures
            r is Ok <==> forall|i: int| 0 <= i < rows@.len() ==> fits(self.row_description.0@.len(), #[trigger] rows@[i]),
            r matches Ok(report) ==> {
                &&& report.row_description.0@ == widened_all(self.row_description.0@, rows@, self.auto_size)
                &&& report.content@ == self.content@ + rows@
                &&& report.auto_size == self.auto_size
            },
            r matches Err(e) ==> exists|k: int|
                first_misfit(self.row_description.0@.len(), rows@, k) && e.0@ == mismatch_message(
                    rows@[k].columns@.len(),
                    self.row_description.0@.len(),
                ),
    {
        let ghost count = self.row_description.0@.len();
        let ghost given = rows@;
        let mut report = self;
        let mut rest = rows;
        let mut k: usize = 0;
        let total = rest.len();
        assert(given.take(0) =~= Seq::<Row>::empty());
        while rest.len() > 0
            invariant
                k + rest@.len() == total,
                total == given.len(),
                given == rows@,
                count == self.row_description.0@.len(),
                rest@ == given.skip(k as int),
                report.row_description.0@.len() == count,
                report.row_description.0@ == widened_all(self.row_description.0@, given.take(k as int), self.auto_size),
                report.content@ == self.content@ + given.take(k as int),
                report.auto_size == self.auto_size,
                forall|j: int| 0 <= j < k ==> fits(count, #[trigger] given[j]),
            decreases rest.len(),
        {
            let row = rest.remove(0);
            assert(row == given[k as int]);
            assert(given.take(k + 1).drop_last() =~= given.take(k as int));
            match report.add(row) {
                Ok(_) => {},
                Err(e) => {
                    assert(first_misfit(count, given, k as int));
                    return Err(e);
                },
            }
            proof {
                assert(report.content@ =~= self.content@ + given.take(k + 1));
                assert(rest@ =~= given.skip(k + 1));
            }
            k = k + 1;
        }
        assert(given.take(k as int) =~= given);
        Ok(report)
    }

    /// The lines of the report, one for each row, in order; a row that does not fit the
    /// description fails it.
    pub fn generate(&self) -> (r: Result<Vec<String>, Error>)
        ensures
            r is Ok <==> forall|i: int|
                0 <= i < self.content@.len() ==> fits(self.row_description.0@.len(), #[trigger] self.content@[i]),
            r matches Ok(lines) ==> lines@.len() == self.content@.len() && forall|i: int|
                0 <= i < lines@.len() ==> (#[trigger] lines@[i])@ == line_of(self.row_description.0@, self.content@[i]),
            r matches Err(e) ==> exists|k: int|
                first_misfit(self.row_description.0@.len(), self.content@, k) && e.0@ == count_message(
                    self.content@[k].columns@.len(),
                    self.row_description.0@.len(),
                ),
    {
        let ghost count = self.row_description.0@.len();
        let mut lines: Vec<String> = Vec::new();
        let mut i: usize = 0;
        while i < self.content.len()
            invariant
                i <= self.content@.len(),
                count == self.row_description.0@.len(),
                lines@.len() == i,
                forall|j: int| 0 <= j < i ==> fits(count, #[trigger] self.content@[j]),
                forall|j: int|
                    0 <= j < i ==> (#[trigger] lines@[j])@ == line_of(self.row_description.0@, self.content@[j]),
            decreases self.content.len() - i,
        {
            match self.row_description.format_row(&self.content[i]) {
                Ok(columns) => {
                    assert(texts(columns@) =~= formatted_row(self.row_description.0@, self.content@[i as int]));
                    lines.push(join_columns(&columns));
                },
                Err(e) => {
                    assert(first_misfit(count, self.content@, i as int));
                    return Err(e);
                },
            }
            i = i + 1;
        }
        Ok(lines)
    }

    /// A reporter that gives the report's lines from the first row on.
    pub fn iter(&self) -> (r: Reporter<'_>)
        ensures
            *r.report == *self,
            r.row_index == 0,
    {
        Reporter { report: self, row_index: 0 }
    }
}

/// The line at the index of a report, if the report has a row there that fits.
pub open spec fn report_line(report: Report, index: int) -> Option<Seq<char>> {
    if 0 <= index < report.content@.len() && fits(report.row_description.0@.len(), report.content@[index]) {
        Some(line_of(report.row_description.0@, report.content@[index]))
    } else {
        None
    }
}

/// Gives the lines of a report one at a time.
pub struct Reporter<'r> {
    /// The report.
    pub report: &'r Report,
    /// The index of the row whose line comes next.
    pub row_index: usize,
}

impl<'r> Reporter<'r> {
    /// The line of the next row; none past the last row or at a row that does not fit,
    /// where the reporter stays.
    pub fn next(&mut self) -> (r: Option<String>)
        ensures
            final(self).report == old(self).report,
            match report_line(*old(self).report, old(self).row_index as int) {
                Some(line) => r matches Some(text) && text@ == line && final(self).row_index == old(self).row_index + 1,
                None => r is None && final(self).row_index == old(self).row_index,
            },
    {
        if self.row_index < self.report.content.len() {
            match row_line(&self.report.row_description, &self.report.content[self.row_index]) {
                Some(line) => {
                    self.row_index = self.row_index + 1;
                    Some(line)
                },
                None => None,
            }
        } else {
            None
        }
    }
}

} // verus!

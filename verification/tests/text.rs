use fsview::decimal::{signed_text, unsigned_text};
use fsview::report::{
    align_text, Alignment, Column, ColumnDescription, ColumnDescriptions, Columns, Error, Report, Row,
    RowDescription, RowID,
};

#[test]
fn error() {
    assert_eq!(Error::from_message("foo").0, "text: foo");
    assert_eq!(Error::from_message(String::from("bar").as_str()).0, String::from("text: bar"));
    assert_eq!(Error::from_message("foobar").into_message(), String::from("text: foobar"));
    assert_eq!(Error::from_message("raboof").0, format!("text: raboof"));
}

#[test]
fn alignment() {
    assert_eq!(Alignment::Left.name(), String::from("Left"));
    assert_eq!(Alignment::Center.name(), String::from("Center"));
    assert_eq!(Alignment::Right.name(), String::from("Right"));
    assert_eq!(Alignment::AsIs.name(), String::from("None"));
}

#[test]
fn column_description() {
    let testcase = ColumnDescription::from_alignment(Alignment::Left);
    assert_eq!(testcase.width, 0);
    assert_eq!(testcase.default_alignment, Alignment::Left);
    let testcase = ColumnDescription::from_alignment(Alignment::Left).with_width(5);
    assert_eq!(testcase.width, 5);
    assert_eq!(testcase.default_alignment, Alignment::Left);
    let testcase = ColumnDescription::from_alignment(Alignment::Center);
    assert_eq!(testcase.width, 0);
    assert_eq!(testcase.default_alignment, Alignment::Center);
    let testcase = ColumnDescription::from_alignment(Alignment::Right);
    assert_eq!(testcase.width, 0);
    assert_eq!(testcase.default_alignment, Alignment::Right);
}

#[test]
fn column_descriptions() {
    let testcase =
        ColumnDescriptions::from_alignments(vec![Alignment::AsIs, Alignment::Right, Alignment::Left, Alignment::Center]);
    assert_eq!(testcase.0.len(), 4);
    assert_eq!(testcase.0[0].default_alignment, Alignment::AsIs);
    assert_eq!(testcase.0[1].default_alignment, Alignment::Right);
    assert_eq!(testcase.0[2].default_alignment, Alignment::Left);
    assert_eq!(testcase.0[3].default_alignment, Alignment::Center);
}

#[test]
fn row_description() {
    let testcase = RowDescription::from_columns(vec![]);
    assert_eq!(testcase.len(), 0);
    let testcase = RowDescription::from_columns(vec![
        ColumnDescription::from_alignment(Alignment::Left).with_width(5),
        ColumnDescription::from_alignment(Alignment::Center).with_width(10),
        ColumnDescription::from_alignment(Alignment::Right),
    ]);
    let column = testcase.get_column_description(0).unwrap();
    assert_eq!(column.default_alignment, Alignment::Left);
    assert_eq!(column.width, 5);
    let column = testcase.get_column_description(1).unwrap();
    assert_eq!(column.default_alignment, Alignment::Center);
    assert_eq!(column.width, 10);
    let column = testcase.get_column_description(2).unwrap();
    assert_eq!(column.default_alignment, Alignment::Right);
    assert_eq!(column.width, 0);
    assert!(testcase.get_column_description(4).is_none());
    let mut testcase = RowDescription::from_descriptions(ColumnDescriptions::from_alignments(vec![Alignment::Left]));
    let column = testcase.get_column_description(0).unwrap();
    assert_eq!(column.default_alignment, Alignment::Left);
    assert_eq!(column.width, 0);
    assert!(testcase.get_column_description(1).is_none());
    testcase.add_columns(ColumnDescriptions::from_alignments(vec![Alignment::AsIs]));
    assert_eq!(testcase.len(), 2);
    let column = testcase.get_column_description(1).unwrap();
    assert_eq!(column.default_alignment, Alignment::AsIs);
}

#[test]
fn row_descriptions() {
    let testcase =
        ColumnDescriptions::from_alignments(vec![Alignment::AsIs, Alignment::Right, Alignment::Center, Alignment::Left]);
    assert_eq!(testcase.0.len(), 4);
    assert_eq!(testcase.0[0].default_alignment, Alignment::AsIs);
    assert_eq!(testcase.0[0].width, 0);
    assert_eq!(testcase.0[1].default_alignment, Alignment::Right);
    assert_eq!(testcase.0[1].width, 0);
    assert_eq!(testcase.0[2].default_alignment, Alignment::Center);
    assert_eq!(testcase.0[2].width, 0);
    assert_eq!(testcase.0[3].default_alignment, Alignment::Left);
    assert_eq!(testcase.0[2].width, 0);
}

#[test]
fn column() {
    let testcase = Column::from_text("foobar");
    assert_eq!(testcase.text, String::from("foobar"));
    assert_eq!(testcase.alignment, None);
    let testcase = Column::from_string(String::from("left")).with_alignment(Alignment::Left);
    assert_eq!(testcase.text, String::from("left"));
    assert_eq!(testcase.alignment, Some(Alignment::Left));
    let testcase = Column::from_text("center").with_alignment(Alignment::Center);
    assert_eq!(testcase.text, String::from("center"));
    assert_eq!(testcase.alignment, Some(Alignment::Center));
    let testcase = Column::from_text("right").with_alignment(Alignment::Right);
    assert_eq!(testcase.text, String::from("right"));
    assert_eq!(testcase.alignment, Some(Alignment::Right));
}

#[test]
fn columns() {
    let testcase = Columns::from_strs(vec!["foo", "bar"]);
    assert_eq!(testcase.0.len(), 2);
    assert_eq!(testcase.0[0].text, String::from("foo"));
    assert_eq!(testcase.0[0].alignment, None);
    assert_eq!(testcase.0[1].text, String::from("bar"));
    assert_eq!(testcase.0[1].alignment, None);
    let testcase = Columns::from_strings(vec![String::from("bar"), String::from("foo")]);
    assert_eq!(testcase.0.len(), 2);
    assert_eq!(testcase.0[0].text, String::from("bar"));
    assert_eq!(testcase.0[0].alignment, None);
    assert_eq!(testcase.0[1].text, String::from("foo"));
    assert_eq!(testcase.0[1].alignment, None);
}

#[test]
fn row_id() {
    assert!(!RowID::Header.is_separator());
    assert!(!RowID::Detail.is_separator());
    assert!(RowID::Separator('-').is_separator());
}

#[test]
fn row() {
    let testcase = Row::from_id(RowID::Header);
    assert_eq!(testcase.len(), 0);
    assert_eq!(testcase.id, RowID::Header);
    assert_eq!(Row::from_id(RowID::Detail).id, RowID::Detail);
    assert_eq!(Row::from_id(RowID::Separator('-')).id, RowID::Separator('-'));
    let mut testcase = Row::from_id(RowID::Detail)
        .with_column(Column::from_text("zero"))
        .with_columns(Columns::from_strs(vec!["one"]));
    assert_eq!(testcase.len(), 2);
    assert_eq!(testcase.get_column(0).unwrap().text, String::from("zero"));
    assert_eq!(testcase.get_column(1).unwrap().text, String::from("one"));
    testcase.add(Column::from_text("two")).add_columns(Columns::from_strs(vec!["three"]));
    assert_eq!(testcase.get_column(2).unwrap().text, String::from("two"));
    assert_eq!(testcase.get_column(3).unwrap().text, String::from("three"));
    assert!(testcase.get_column(4).is_none());
}

#[test]
fn format_row() {
    let row_description = RowDescription::from_columns(vec![
        ColumnDescription::from_alignment(Alignment::Right).with_width(5),
        ColumnDescription::from_alignment(Alignment::Center).with_width(5),
        ColumnDescription::from_alignment(Alignment::Left).with_width(5),
    ]);
    let row = Row::from_id(RowID::Separator('*'));
    let columns = row_description.format_row(&row).unwrap();
    assert_eq!(columns.len(), 3);
    assert_eq!(columns, vec!["*****", "*****", "*****"]);
    let columns = row_description
        .format_row(&Row::from_id(RowID::Detail).with_columns(Columns(vec![
            Column::from_text("foo").with_alignment(Alignment::Left),
            Column::from_text("foo"),
            Column::from_text("foo").with_alignment(Alignment::Right),
        ])))
        .unwrap();
    assert_eq!(columns, vec!["foo  ", " foo ", "  foo"]);
}

#[test]
fn report() {
    let mut testcase = Report::from_row_description(RowDescription::from_columns(vec![
        ColumnDescription::from_alignment(Alignment::Left).with_width(5),
        ColumnDescription::from_alignment(Alignment::Center).with_width(5),
        ColumnDescription::from_alignment(Alignment::Right).with_width(5),
    ]));
    assert!(testcase.add(Row::from_id(RowID::Header)).is_err());
    assert!(testcase
        .add(Row::from_id(RowID::Detail).with_columns(Columns::from_strs(vec!["one", "two", "three", "four",])))
        .is_err());
    testcase
        .add(Row::from_id(RowID::Header).with_columns(Columns::from_strs(vec!["header1", "header2", "header3"])))
        .unwrap();
    testcase
        .add(Row::from_id(RowID::Detail).with_columns(Columns::from_strs(vec!["detail1", "detail2", "detail3"])))
        .unwrap();
    testcase.add(Row::from_id(RowID::Separator('-'))).unwrap();
    assert_eq!(testcase.content.len(), 3);
    assert_eq!(testcase.content[0].id, RowID::Header);
    assert_eq!(testcase.content[1].id, RowID::Detail);
    if let RowID::Separator(separator) = testcase.content[2].id {
        assert_eq!(separator, '-');
    } else {
        panic!("did not find a RowID::Separator row!!!");
    }
}

#[test]
fn autosize_report() {
    let testcase = Report::from_row_description(RowDescription::from_columns(vec![ColumnDescription::from_alignment(
        Alignment::Left,
    )]))
    .with_autosize(false)
    .with_rows(vec![Row::from_id(RowID::Detail).with_columns(Columns::from_strs(vec!["text"]))])
    .unwrap();
    assert!(!testcase.auto_size);
    assert_eq!(testcase.row_description.get_column_description(0).unwrap().width, 0);
    let mut testcase = Report::from_row_description(RowDescription::from_columns(vec![
        ColumnDescription::from_alignment(Alignment::Left),
    ]))
    .with_rows(vec![Row::from_id(RowID::Separator('-'))])
    .unwrap();
    assert!(testcase.auto_size);
    assert_eq!(testcase.row_description.get_column_description(0).unwrap().width, 0);
    testcase
        .add(Row::from_id(RowID::Header).with_columns(Columns::from_strs(vec!["header"])))
        .unwrap();
    assert_eq!(testcase.row_description.get_column_description(0).unwrap().width, 6);
    testcase
        .add(Row::from_id(RowID::Detail).with_columns(Columns::from_strs(vec!["row details"])))
        .unwrap();
    assert_eq!(testcase.row_description.get_column_description(0).unwrap().width, 11);
    testcase
        .add(Row::from_id(RowID::Detail).with_columns(Columns::from_strs(vec!["details"])))
        .unwrap();
    assert_eq!(testcase.row_description.get_column_description(0).unwrap().width, 11);
}

#[test]
fn reporter() {
    let report = Report::from_row_description(RowDescription::from_descriptions(ColumnDescriptions::from_alignments(
        vec![Alignment::Left, Alignment::Left],
    )))
    .with_autosize(false)
    .with_rows(vec![
        Row::from_id(RowID::Detail).with_columns(Columns::from_strs(vec!["foo", "bar"])),
        Row::from_id(RowID::Detail).with_columns(Columns::from_strs(vec!["foobar", "raboof"])),
    ])
    .unwrap();
    let mut iter = report.iter();
    assert_eq!(iter.next().unwrap(), "foo bar");
    assert_eq!(iter.next().unwrap(), "foobar raboof");
    assert!(iter.next().is_none());
}

#[test]
fn align_text_util() {
    assert_eq!(align_text("foo", 5, Alignment::Left), "foo  ");
    assert_eq!(align_text("foo", 5, Alignment::Center), " foo ");
    assert_eq!(align_text("foo", 5, Alignment::Right), "  foo");
}

#[test]
fn align_text_never_truncates() {
    assert_eq!(align_text("foobar", 3, Alignment::Left), "foobar");
    assert_eq!(align_text("foobar", 3, Alignment::Center), "foobar");
    assert_eq!(align_text("foobar", 3, Alignment::Right), "foobar");
    assert_eq!(align_text("foo", 10, Alignment::AsIs), "foo");
    assert_eq!(align_text("ab", 5, Alignment::Center), " ab  ");
    assert_eq!(align_text("", 2, Alignment::Right), "  ");
}

#[test]
fn format_row_mismatch() {
    let row_description = RowDescription::from_columns(vec![
        ColumnDescription::from_alignment(Alignment::Right).with_width(5),
        ColumnDescription::from_alignment(Alignment::Center).with_width(5),
    ]);
    let error = row_description
        .format_row(&Row::from_id(RowID::Detail).with_columns(Columns::from_strs(vec!["a"])))
        .unwrap_err();
    assert_eq!(error.0, "text: Row column count (1) != Row description count (2)");
    let columns = row_description
        .format_row(&Row::from_id(RowID::Header).with_columns(Columns::from_strs(vec!["toolong", "ab"])))
        .unwrap();
    assert_eq!(columns, vec!["toolong", " ab  "]);
}

#[test]
fn report_add_mismatch_message() {
    let mut report = Report::from_alignments(vec![Alignment::Left, Alignment::Right, Alignment::Center]);
    let error = report.add(Row::from_id(RowID::Detail)).err().unwrap();
    assert_eq!(error.0, "text: Row columns (0) do not match row description columns (3)");
    assert_eq!(report.content.len(), 0);
    let error = Report::from_alignments(vec![Alignment::Left])
        .with_rows(vec![
            Row::from_id(RowID::Separator('=')),
            Row::from_id(RowID::Detail).with_columns(Columns::from_strs(vec!["a", "b"])),
            Row::from_id(RowID::Detail),
        ])
        .err()
        .unwrap();
    assert_eq!(error.0, "text: Row columns (2) do not match row description columns (1)");
}

#[test]
fn report_generate_lines() {
    let mut report = Report::from_alignments(vec![Alignment::Left, Alignment::Right]);
    report.add(Row::from_id(RowID::Header).with_columns(Columns::from_strs(vec!["Name", "Size"]))).unwrap();
    report.add(Row::from_id(RowID::Separator('-'))).unwrap();
    report.add(Row::from_id(RowID::Detail).with_columns(Columns::from_strs(vec!["a.txt", "12"]))).unwrap();
    let lines = report.generate().unwrap();
    assert_eq!(lines, vec!["Name  Size", "----- ----", "a.txt   12"]);
    let mut reporter = report.iter();
    assert_eq!(reporter.next().unwrap(), "Name  Size");
    assert_eq!(reporter.row_index, 1);
    report.content.push(Row::from_id(RowID::Detail));
    let error = report.generate().unwrap_err();
    assert_eq!(error.0, "text: Row column count (0) != Row description count (2)");
}

#[test]
fn row_alignment_defaults_columns() {
    let row = Row::from_id(RowID::Detail)
        .with_alignment(Alignment::Right)
        .with_column(Column::from_text("a"))
        .with_column(Column::from_text("b").with_alignment(Alignment::Left));
    assert_eq!(row.alignment, Some(Alignment::Right));
    assert_eq!(row.columns[0].alignment, Some(Alignment::Right));
    assert_eq!(row.columns[1].alignment, Some(Alignment::Left));
}

#[test]
fn decimal_texts() {
    assert_eq!(unsigned_text(0), "0");
    assert_eq!(unsigned_text(1234567890), "1234567890");
    assert_eq!(unsigned_text(u64::MAX), u64::MAX.to_string());
    assert_eq!(signed_text(-42), "-42");
    assert_eq!(signed_text(i64::MIN), i64::MIN.to_string());
    assert_eq!(signed_text(7), "7");
}

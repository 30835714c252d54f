use tablestore::database::{Column, Database, TableBuilder};

#[test]
fn test_new() {
    Database::new();
}

#[test]
fn test_database_insert_cell() {
    let mut db = Database::new();
    let _cell1 = db.insert_cell(&String::from("a"));

    assert_eq!(db.cells.len(), 1);
}

#[test]
fn test_database_insert_cell_no_dupes() {
    let mut db = Database::new();
    let cell1 = db.insert_cell(&String::from("a"));
    let cell2 = db.insert_cell(&String::from("b"));
    let cell3 = db.insert_cell(&String::from("c"));
    let cell4 = db.insert_cell(&String::from("b"));

    assert_ne!(cell1, cell2);
    assert_ne!(cell1, cell3);
    assert_eq!(cell2, cell4); // no dupes
    assert_eq!(db.cells.len(), 3);
    assert_eq!(db.cells.len(), 3);
}

#[test]
fn test_database_insert_col() {
    let mut db = Database::new();

    let key = db.insert_col(Column {
        header: String::from("FNAME"),
        width: 10,
    });
    assert_eq!(key, 0);

    let key = db.insert_col(Column {
        header: String::from("LNAME"),
        width: 10,
    });
    assert_eq!(key, 1);

    // no dupes
    let key = db.insert_col(Column {
        header: String::from("FNAME"),
        width: 10,
    });
    assert_eq!(key, 0);
}

#[test]
fn test_database_load_table() {
    let mut db = Database::new();

    let mut tb = TableBuilder::new();
    tb.add_row(vec![
        String::from("one"),
        String::from("two"),
        String::from("three"),
    ]);
    tb.add_row(vec![
        String::from("a"),
        String::from("b"),
        String::from("c"),
        String::from("d"),
    ]);
    tb.add_row(vec![
        String::from("onejjcjcjcj c jc"),
        String::from(""),
        String::from("thrsdfkjlsdjee"),
    ]);
    tb.add_row(vec![
        String::from("one"),
        String::from("two"),
        String::from("three"),
    ]);

    let _tab = db.load_table(&tb);
    assert_eq!(db.tables.len(), 1);
}

#[test]
fn test_tb_new() {
    let tb = TableBuilder::new();
    let empty_string_vec: Vec<Vec<String>> = Vec::new();
    let empty_col_vec: Vec<Column> = Vec::new();

    assert_eq!(tb.rows.len(), empty_string_vec.len());
    assert_eq!(tb.cols.len(), empty_col_vec.len());
    assert_eq!(tb.row_cnt, 0);
    assert_eq!(tb.col_cnt, 0);
}

#[test]
fn test_tb_add_row() {
    let mut tb = TableBuilder::new();
    tb.add_row(vec![
        String::from("Hello...eto..."),
        String::from("Worudo, desho"),
    ]);

    assert_eq!(&tb.row_cnt, &1);
    assert_eq!(&tb.col_cnt, &2);

    tb.add_row(vec![
        String::from("a"),
        String::from("bb"),
        String::from("ccc"),
    ]);

    assert_eq!(&tb.row_cnt, &2);
    assert_eq!(&tb.col_cnt, &3);

    assert_eq!(&tb.cols[0].width, &"Hello...eto...".len());
    assert_eq!(&tb.cols[1].width, &"Worudo, desho".len());
    assert_eq!(&tb.cols[2].width, &"ccc".len());
}

#[test]
fn database_test_tb_add_row() {
    let mut tb = TableBuilder::new();
    tb.add_row(vec![
        String::from("Hello...eto..."),
        String::from("Worudo, desho"),
    ]);

    assert_eq!(&tb.row_cnt, &1);
    assert_eq!(&tb.col_cnt, &2);

    tb.add_row(vec![
        String::from("a"),
        String::from("bb"),
        String::from("ccc"),
    ]);

    assert_eq!(&tb.row_cnt, &2);
    assert_eq!(&tb.col_cnt, &3);

    assert_eq!(&tb.cols[0].width, &"Hello...eto...".len());
    assert_eq!(&tb.cols[1].width, &"Worudo, desho".len());
    assert_eq!(&tb.cols[2].width, &"ccc".len());
}

#[test]
fn test_column() {
    let mut col = Column {
        header: String::from("FIRSTCOL"),
        width: 10,
    };

    assert_eq!(&col.header, &String::from("FIRSTCOL"));

    col.header(String::from("ANOTHER HEADER"));

    assert_eq!(&col.header, &String::from("ANOTHER HEADER"));
}

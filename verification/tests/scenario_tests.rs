use tablestore::csv_loader::CsvLoader;
use tablestore::database::{Column, Database, TableBuilder};
use tablestore::decoder::decode_field;

fn grid(rows: &[&[&str]]) -> Vec<Vec<String>> {
    rows.iter()
        .map(|r| r.iter().map(|s| s.to_string()).collect())
        .collect()
}

#[test]
fn scenario_two_ragged_rows() {
    // input [["a"], ["b","c"]]: extent {row: 2, col: 2}, cell sequence of
    // length 4, and exactly the cells "a", "b", "c", "" interned.
    let mut db = Database::new();
    let key = db.load_grid(grid(&[&["a"], &["b", "c"]]));

    let table = &db.tables[key];
    assert_eq!(table.row_cnt, 2);
    assert_eq!(table.col_cnt, 2);
    assert_eq!(table.cells.len(), 4);
    assert_eq!(db.cells.len(), 4);

    // the padded position (row 0, col 1) holds the empty string's key
    let empty_key = db.cells.get_key(String::new()).unwrap();
    assert_eq!(table.cells[1], empty_key);
}

#[test]
fn scenario_three_ragged_rows() {
    // input [["a"], ["b","c","d","e"], ["f"]]: extent {row: 3, col: 4}, cell
    // sequence of length 12, and 7 distinct interned cells.
    let mut db = Database::new();
    let key = db.load_grid(grid(&[&["a"], &["b", "c", "d", "e"], &["f"]]));

    let table = &db.tables[key];
    assert_eq!(table.row_cnt, 3);
    assert_eq!(table.col_cnt, 4);
    assert_eq!(table.cells.len(), 12);
    assert_eq!(db.cells.len(), 7);
}

#[test]
fn scenario_current_table() {
    // before any build the current-table query is absent; after one
    // successful build it returns the just-built table.
    let mut db = Database::new();
    assert!(db.current_table().is_none());

    let key = db.load_grid(grid(&[&["x", "y"]]));
    let current = db.current_table().expect("a table was just built");
    assert_eq!(current.row_cnt, db.tables[key].row_cnt);
    assert_eq!(current.col_cnt, db.tables[key].col_cnt);
    assert_eq!(current.cells, db.tables[key].cells);

    // a second build moves the head to the newer table
    let key2 = db.load_grid(grid(&[&["p"], &["q"]]));
    assert_ne!(key, key2);
    let current = db.current_table().expect("still has a table");
    assert_eq!(current.row_cnt, 2);
}

#[test]
fn scenario_legacy_byte_decodes() {
    // byte 130 decodes to 'e' at its position; a field mixing valid UTF-8 and
    // one unmapped legacy byte still decodes as a whole, reporting only the
    // unmapped byte.
    let (text, unmapped) = decode_field(&[130]);
    assert_eq!(text, "e");
    assert!(unmapped.is_empty());

    let (text, unmapped) = decode_field(b"caf\x82 au lait");
    assert_eq!(text, "cafe au lait");
    assert!(unmapped.is_empty());

    // 0xA0 has no table entry: it is dropped and reported, nothing fails
    let (text, unmapped) = decode_field(b"ab\xA0cd");
    assert_eq!(text, "abcd");
    assert_eq!(unmapped, vec![0xA0]);
}

#[test]
fn decoder_keeps_valid_utf8() {
    let bytes = "héllo wörld — ÿ".as_bytes();
    let (text, unmapped) = decode_field(bytes);
    assert_eq!(text, "héllo wörld — ÿ");
    assert!(unmapped.is_empty());
}

#[test]
fn decoder_transliterates_every_table_entry() {
    let pairs: &[(u8, char)] = &[
        (128, 'C'),
        (129, 'u'),
        (130, 'e'),
        (131, 'a'),
        (132, 'a'),
        (133, 'a'),
        (134, 'a'),
        (135, 'c'),
        (136, 'e'),
        (137, 'e'),
        (138, 'e'),
        (139, 'i'),
        (140, 'i'),
        (141, 'i'),
        (142, 'A'),
        (143, 'A'),
        (144, 'E'),
        (145, 'a'),
        (146, '\''),
        (147, 'o'),
        (148, 'o'),
        (149, 'o'),
        (150, 'u'),
        (151, 'u'),
        (152, 'y'),
        (153, 'O'),
        (154, 'U'),
        (155, 'o'),
        (201, 'E'),
        (203, 'E'),
        (208, 'D'),
        (209, 'N'),
        (210, 'E'),
        (211, 'O'),
        (212, 'E'),
        (241, 'n'),
    ];
    for &(b, c) in pairs {
        let (text, unmapped) = decode_field(&[b]);
        assert_eq!(text, c.to_string(), "byte {}", b);
        assert!(unmapped.is_empty(), "byte {}", b);
    }
}

#[test]
fn from_bytes_parses_simple_csv() {
    let (rows, unmapped) = CsvLoader::from_bytes(b"a,b\nc,d\n").unwrap();
    assert_eq!(rows, grid(&[&["a", "b"], &["c", "d"]]));
    assert!(unmapped.is_empty());
}

#[test]
fn from_bytes_keeps_ragged_rows() {
    let (rows, _) = CsvLoader::from_bytes(b"a\nb,c,d\ne,f\n").unwrap();
    assert_eq!(rows, grid(&[&["a"], &["b", "c", "d"], &["e", "f"]]));
}

#[test]
fn from_bytes_first_row_is_data() {
    let (rows, _) = CsvLoader::from_bytes(b"name,age\nida,3\n").unwrap();
    assert_eq!(rows.len(), 2);
    assert_eq!(rows[0], vec!["name".to_string(), "age".to_string()]);
}

#[test]
fn from_bytes_decodes_legacy_fields() {
    let (rows, unmapped) = CsvLoader::from_bytes(b"caf\x82,x\ny,z\xA0w\n").unwrap();
    assert_eq!(rows, grid(&[&["cafe", "x"], &["y", "zw"]]));
    assert_eq!(unmapped, vec![0xA0]);
}

#[test]
fn from_bytes_handles_quoting() {
    let (rows, _) = CsvLoader::from_bytes(b"\"a,b\",c\n").unwrap();
    assert_eq!(rows, grid(&[&["a,b", "c"]]));
}

#[test]
fn intern_same_text_many_times_same_key() {
    let mut db = Database::new();
    let first = db.insert_cell("again");
    for _ in 0..10 {
        assert_eq!(db.insert_cell("again"), first);
    }
    assert_eq!(db.cells.len(), 1);
}

#[test]
fn intern_distinct_texts_distinct_keys() {
    let mut db = Database::new();
    let texts = ["q", "w", "e", "r", "t", "y"];
    let mut keys = Vec::new();
    for t in texts {
        keys.push(db.insert_cell(t));
    }
    for i in 0..keys.len() {
        assert_eq!(keys[i], i);
        for j in 0..i {
            assert_ne!(keys[i], keys[j]);
        }
    }
    assert_eq!(db.cells.len(), texts.len());
}

#[test]
fn column_dedup_by_header_and_width() {
    let mut db = Database::new();
    let k1 = db.insert_col(Column { header: String::from("H"), width: 4 });
    let k2 = db.insert_col(Column { header: String::from("H"), width: 4 });
    assert_eq!(k1, k2);

    // differing in width alone, or in header alone, yields a distinct key
    let k3 = db.insert_col(Column { header: String::from("H"), width: 5 });
    assert_ne!(k1, k3);
    let k4 = db.insert_col(Column { header: String::from("I"), width: 4 });
    assert_ne!(k1, k4);
    assert_ne!(k3, k4);
}

#[test]
fn widths_are_row_order_independent() {
    let mut tb1 = TableBuilder::new();
    tb1.add_row(vec!["aaaa".to_string(), "b".to_string()]);
    tb1.add_row(vec!["c".to_string(), "ddddd".to_string(), "e".to_string()]);

    let mut tb2 = TableBuilder::new();
    tb2.add_row(vec!["c".to_string(), "ddddd".to_string(), "e".to_string()]);
    tb2.add_row(vec!["aaaa".to_string(), "b".to_string()]);

    assert_eq!(tb1.col_cnt, tb2.col_cnt);
    for c in 0..tb1.col_cnt {
        assert_eq!(tb1.cols[c].width, tb2.cols[c].width);
    }
    assert_eq!(tb1.cols[0].width, 4);
    assert_eq!(tb1.cols[1].width, 5);
    assert_eq!(tb1.cols[2].width, 1);
}

#[test]
fn widths_track_maximum_cell_length() {
    let mut db = Database::new();
    let key = db.load_grid(grid(&[&["ab"], &["c", "defg"], &["hijkl", "m"]]));
    let table = &db.tables[key];
    let col0 = db.columns.get(table.columns[0]).unwrap();
    let col1 = db.columns.get(table.columns[1]).unwrap();
    assert_eq!(col0.width, 5);
    assert_eq!(col1.width, 4);
    assert_eq!(col0.header, "");
}

#[test]
fn from_widths_builds_descriptors() {
    let cols = Column::from_widths(vec![3, 0, 7]);
    assert_eq!(cols.len(), 3);
    assert_eq!(cols[0].width, 3);
    assert_eq!(cols[1].width, 0);
    assert_eq!(cols[2].width, 7);
    for col in &cols {
        assert_eq!(col.header, "");
    }
}

#[test]
fn load_table_pads_with_empty_string_key() {
    let mut db = Database::new();
    let mut tb = TableBuilder::new();
    tb.add_row(vec!["a".to_string(), "b".to_string(), "c".to_string()]);
    tb.add_row(vec!["d".to_string()]);
    let key = db.load_table(&tb);

    let table = &db.tables[key];
    let empty_key = db.cells.get_key(String::new()).unwrap();
    // row 1, columns 1 and 2 were padded
    assert_eq!(table.cells[1 * 3 + 1], empty_key);
    assert_eq!(table.cells[1 * 3 + 2], empty_key);
    // the rest hold the row's own fields
    assert_eq!(db.cells.get(table.cells[0]).unwrap(), "a");
    assert_eq!(db.cells.get(table.cells[1]).unwrap(), "b");
    assert_eq!(db.cells.get(table.cells[2]).unwrap(), "c");
    assert_eq!(db.cells.get(table.cells[3]).unwrap(), "d");
}

#[test]
fn dbl_vec_area_measures_ragged_grid() {
    let g = grid(&[&["a"], &["b", "c", "d"], &[]]);
    let pos = Database::dbl_vec_area(&g);
    assert_eq!(pos.row, 3);
    assert_eq!(pos.col, 3);

    let empty: Vec<Vec<String>> = Vec::new();
    let pos = Database::dbl_vec_area(&empty);
    assert_eq!(pos.row, 0);
    assert_eq!(pos.col, 0);
}

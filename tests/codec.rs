use sample_logger::codec::{
    columns_from_rows, encode_rows, header_is_valid, read_csv_as_audio_data, table_from_records,
    ReadError,
};
use sample_logger::{ChannelTable, SampleLogger};

fn parse(s: &str) -> Option<f32> {
    s.parse::<f32>().ok()
}

fn columns(t: &ChannelTable<f32>) -> Vec<(String, Vec<f32>)> {
    (0..t.num_channels()).map(|c| (t.name(c).clone(), t.values(c).clone())).collect()
}

#[test]
fn read_three_columns() {
    let t = read_csv_as_audio_data(b"a,b,c\n1,2,3\n4,5,6\n", parse).unwrap();
    assert_eq!(
        columns(&t),
        vec![
            (String::from("a"), vec![1.0, 4.0]),
            (String::from("b"), vec![2.0, 5.0]),
            (String::from("c"), vec![3.0, 6.0]),
        ]
    );
}

#[test]
fn write_then_read_gives_the_table_back() {
    let mut logger = SampleLogger::new(String::from("out.csv"));
    let values = [0.1f32, -2.5, 1e-7, 3.25e10];
    for v in values {
        logger.write("sample", v).unwrap();
        logger.write("gain", v * 0.5).unwrap();
    }
    let bytes = logger.write_debug_values(|v: f32| format!("{:?}", v)).unwrap();
    let t = read_csv_as_audio_data(&bytes, parse).unwrap();
    assert_eq!(columns(&t), columns(logger.channels()));
}

#[test]
fn read_header_only_gives_empty_channels() {
    let t = read_csv_as_audio_data(b"a,b\n", parse).unwrap();
    assert_eq!(columns(&t), vec![(String::from("a"), vec![]), (String::from("b"), vec![])]);
}

#[test]
fn read_empty_file_has_no_header() {
    assert!(matches!(read_csv_as_audio_data(b"", parse), Err(ReadError::MissingHeader)));
}

#[test]
fn read_repeated_name_is_malformed() {
    assert!(matches!(
        read_csv_as_audio_data(b"a,a\n1,2\n", parse),
        Err(ReadError::MalformedHeader)
    ));
}

#[test]
fn read_empty_name_is_malformed() {
    assert!(matches!(
        read_csv_as_audio_data(b"a,\n1,2\n", parse),
        Err(ReadError::MalformedHeader)
    ));
}

#[test]
fn read_bad_field_is_a_parse_error() {
    assert!(matches!(
        read_csv_as_audio_data(b"a,b\n1,2\n3,x\n", parse),
        Err(ReadError::Parse { row: 1, column: 1 })
    ));
}

#[test]
fn read_blank_field_is_a_parse_error() {
    assert!(matches!(
        read_csv_as_audio_data(b"sample,other\n0.1,1.0\n0.2,\n", parse),
        Err(ReadError::Parse { row: 1, column: 1 })
    ));
}

#[test]
fn read_short_record_is_a_csv_error() {
    assert!(matches!(read_csv_as_audio_data(b"a,b\n1\n", parse), Err(ReadError::Csv(_))));
}

#[test]
fn columns_from_rows_checks_row_length() {
    let names = vec![String::from("a"), String::from("b")];
    let rows = vec![vec![1u8, 2], vec![3], vec![4, 5, 6]];
    assert!(matches!(columns_from_rows(&names, &rows), Err(ReadError::RowLength { row: 1 })));
}

#[test]
fn columns_from_rows_transposes() {
    let names = vec![String::from("a"), String::from("b")];
    let rows = vec![vec![1u8, 2], vec![3, 4], vec![5, 6]];
    let t = columns_from_rows(&names, &rows).unwrap();
    assert_eq!(t.num_channels(), 2);
    assert_eq!(t.values(0), &vec![1, 3, 5]);
    assert_eq!(t.values(1), &vec![2, 4, 6]);
}

#[test]
fn header_validity() {
    assert!(header_is_valid(&vec![String::from("a"), String::from("b")]));
    assert!(header_is_valid(&vec![]));
    assert!(!header_is_valid(&vec![String::from("a"), String::from("")]));
    assert!(!header_is_valid(&vec![String::from("a"), String::from("b"), String::from("a")]));
}

#[test]
fn encode_rows_frames_records() {
    let rows = vec![
        vec![String::from("a"), String::from("b")],
        vec![String::from("1"), String::from("")],
        vec![String::from("x,y"), String::from("2")],
    ];
    let bytes = encode_rows(&rows);
    assert_eq!(String::from_utf8(bytes).unwrap(), "a,b\n1,\n\"x,y\",2\n");
}

fn record(fields: &[&str]) -> Vec<String> {
    fields.iter().map(|f| String::from(*f)).collect()
}

#[test]
fn table_from_records_reads_header_then_rows() {
    let records = vec![record(&["a", "b", "c"]), record(&["1", "2", "3"]), record(&["4", "5", "6"])];
    let t = table_from_records(&records, parse).unwrap();
    assert_eq!(
        columns(&t),
        vec![
            (String::from("a"), vec![1.0, 4.0]),
            (String::from("b"), vec![2.0, 5.0]),
            (String::from("c"), vec![3.0, 6.0]),
        ]
    );
}

#[test]
fn table_from_records_reports_each_error() {
    assert!(matches!(table_from_records(&vec![], parse), Err(ReadError::MissingHeader)));
    let dup = vec![record(&["a", "a"])];
    assert!(matches!(table_from_records(&dup, parse), Err(ReadError::MalformedHeader)));
    let short = vec![record(&["a", "b"]), record(&["1", "2"]), record(&["3"])];
    assert!(matches!(table_from_records(&short, parse), Err(ReadError::RowLength { row: 1 })));
    let bad = vec![record(&["a", "b"]), record(&["1", "?"])];
    assert!(matches!(
        table_from_records(&bad, parse),
        Err(ReadError::Parse { row: 0, column: 1 })
    ));
}

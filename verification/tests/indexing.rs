use rover::column::Column;
use rover::rover::{DecodeError, IndexError, Rover, ValueDecoder};

/// Each value becomes a single text column.
struct TextDecoder {}

impl<V> ValueDecoder<V> for TextDecoder
where
    V: AsRef<[u8]>,
{
    fn decode(&self, v: V) -> Result<Vec<Column>, DecodeError> {
        let s = String::from_utf8(v.as_ref().to_vec()).unwrap();
        Ok(vec![Column::Str(s)])
    }
}

/// A decoder with special raw values: "huge" decodes to 257 columns, "wide"
/// to 256 columns, "empty" to no columns at all, "bad" fails, a decimal
/// number becomes a single number column, anything else a single text column.
struct BranchingDecoder {}

impl<V> ValueDecoder<V> for BranchingDecoder
where
    V: AsRef<[u8]>,
{
    fn decode(&self, v: V) -> Result<Vec<Column>, DecodeError> {
        let s = String::from_utf8(v.as_ref().to_vec()).unwrap();
        match s.as_str() {
            "huge" => Ok((0..257).map(Column::Number).collect()),
            "wide" => Ok((0..256).map(Column::Number).collect()),
            "empty" => Ok(Vec::new()),
            "bad" => Err(DecodeError { reason: "malformed value".to_string() }),
            _ => match s.parse::<i32>() {
                Ok(n) => Ok(vec![Column::Number(n)]),
                Err(_) => Ok(vec![Column::Str(s)]),
            },
        }
    }
}

/// Splits a comma-separated value into one text column per field.
struct CsvDecoder {}

impl<V> ValueDecoder<V> for CsvDecoder
where
    V: AsRef<[u8]>,
{
    fn decode(&self, v: V) -> Result<Vec<Column>, DecodeError> {
        let s = String::from_utf8(v.as_ref().to_vec()).unwrap();
        Ok(s.split(',').map(|f| Column::Str(f.to_string())).collect())
    }
}

fn text(s: &str) -> Column {
    Column::Str(s.to_string())
}

#[test]
fn lookup_exact_present_and_absent() {
    let mut r: Rover<&str, TextDecoder> = Rover::new(TextDecoder {});
    r.index_all_columns("1", "a").unwrap();
    r.index_all_columns("2", "b").unwrap();
    assert_eq!(Some(&vec!["1"]), r.get(text("a"), 0));
    assert_eq!(None, r.get(text("z"), 0));
    assert_eq!(None, r.get(text("a"), 1));
}

#[test]
fn too_many_columns_is_rejected_and_state_kept() {
    let mut r: Rover<&str, BranchingDecoder> = Rover::new(BranchingDecoder {});
    r.index_all_columns("k1", "a").unwrap();
    let err = r.index_all_columns("k2", "huge");
    assert_eq!(Err(IndexError::TooManyColumns), err);
    assert_eq!(Some(&vec!["k1"]), r.get(text("a"), 0));
    assert_eq!(None, r.get(Column::Number(0), 0));
    assert_eq!(None, r.get(Column::Number(0), 1));
    assert_eq!(vec!["k1"], r.sort_by_column(0));
    assert_eq!(Vec::<&str>::new(), r.sort_by_column(1));
}

#[test]
fn record_of_256_columns_is_accepted() {
    let mut r: Rover<&str, BranchingDecoder> = Rover::new(BranchingDecoder {});
    r.index_all_columns("k", "wide").unwrap();
    assert_eq!(Some(&vec!["k"]), r.get(Column::Number(255), 255));
    assert_eq!(vec!["k"], r.sort_by_column(255));
}

#[test]
fn decode_failure_is_reported_and_state_kept() {
    let mut r: Rover<&str, BranchingDecoder> = Rover::new(BranchingDecoder {});
    r.index_all_columns("k1", "a").unwrap();
    let err = r.index_all_columns("k2", "bad");
    assert_eq!(
        Err(IndexError::DecodeFailure(DecodeError { reason: "malformed value".to_string() })),
        err
    );
    assert_eq!(Some(&vec!["k1"]), r.get(text("a"), 0));
    assert_eq!(None, r.get(text("bad"), 0));
    assert_eq!(vec!["k1"], r.sort_by_column(0));
}

#[test]
fn empty_decode_contributes_nothing() {
    let mut r: Rover<&str, BranchingDecoder> = Rover::new(BranchingDecoder {});
    r.index_all_columns("k", "empty").unwrap();
    assert_eq!(Vec::<&str>::new(), r.sort_by_column(0));
    assert_eq!(None, r.get(text("empty"), 0));
}

#[test]
fn duplicate_key_same_column_is_kept_twice() {
    let mut r: Rover<&str, TextDecoder> = Rover::new(TextDecoder {});
    r.index_all_columns("k", "a").unwrap();
    r.index_all_columns("k", "a").unwrap();
    assert_eq!(Some(&vec!["k", "k"]), r.get(text("a"), 0));
    assert_eq!(vec!["k", "k"], r.sort_by_column(0));
}

#[test]
fn equal_columns_keep_ingestion_order() {
    let mut r: Rover<&str, TextDecoder> = Rover::new(TextDecoder {});
    for (k, v) in [("3", "b"), ("1", "a"), ("2", "b"), ("4", "a")] {
        r.index_all_columns(k, v).unwrap();
    }
    assert_eq!(Some(&vec!["3", "2"]), r.get(text("b"), 0));
    assert_eq!(vec!["1", "4", "3", "2"], r.sort_by_column(0));
}

#[test]
fn numbers_sort_numerically_and_before_text() {
    let mut r: Rover<&str, BranchingDecoder> = Rover::new(BranchingDecoder {});
    for (k, v) in [("a", "10"), ("b", "-3"), ("c", "zebra"), ("d", "5"), ("e", "apple")] {
        r.index_all_columns(k, v).unwrap();
    }
    assert_eq!(vec!["b", "d", "a", "e", "c"], r.sort_by_column(0));
}

#[test]
fn text_sorts_lexicographically() {
    let mut r: Rover<&str, TextDecoder> = Rover::new(TextDecoder {});
    for (k, v) in [("1", "b"), ("2", "ab"), ("3", ""), ("4", "aa"), ("5", "abc")] {
        r.index_all_columns(k, v).unwrap();
    }
    assert_eq!(vec!["3", "4", "2", "5", "1"], r.sort_by_column(0));
}

#[test]
fn positions_are_indexed_independently() {
    let mut r: Rover<&str, CsvDecoder> = Rover::new(CsvDecoder {});
    r.index_all_columns("r1", "x,y").unwrap();
    r.index_all_columns("r2", "y,x").unwrap();
    assert_eq!(Some(&vec!["r1"]), r.get(text("x"), 0));
    assert_eq!(Some(&vec!["r2"]), r.get(text("x"), 1));
    assert_eq!(Some(&vec!["r2"]), r.get(text("y"), 0));
    assert_eq!(Some(&vec!["r1"]), r.get(text("y"), 1));
    assert_eq!(vec!["r1", "r2"], r.sort_by_column(0));
    assert_eq!(vec!["r2", "r1"], r.sort_by_column(1));
}

#[test]
fn index_decoded_rejects_only_oversized_records() {
    let mut r: Rover<u64, TextDecoder> = Rover::new(TextDecoder {});
    let cols: Vec<Column> = (0..257).map(Column::Number).collect();
    assert_eq!(Err(IndexError::TooManyColumns), r.index_decoded(7, cols));
    assert_eq!(None, r.get(Column::Number(0), 0));
    let cols: Vec<Column> = (0..256).map(Column::Number).collect();
    assert_eq!(Ok(()), r.index_decoded(7, cols));
    assert_eq!(Some(&vec![7]), r.get(Column::Number(42), 42));
}

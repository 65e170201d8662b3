use rover::column::Column;
use rover::rover::{DecodeError, Rover, ValueDecoder};

/// Column is a single String.
struct SingleStringValueDecoder {}

impl<V> ValueDecoder<V> for SingleStringValueDecoder
where
    V: AsRef<[u8]>,
{
    fn decode(&self, v: V) -> Result<Vec<Column>, DecodeError> {
        let mut columns = Vec::new();
        let s = String::from_utf8(v.as_ref().to_vec()).unwrap();
        columns.push(Column::Str(s));
        Ok(columns)
    }
}

#[test]
fn it_indexes_all_columns() {
    let mut r: Rover<&str, SingleStringValueDecoder> = Rover::new(SingleStringValueDecoder {});
    for (k, v) in [("1", "a"), ("2", "b"), ("3", "c")] {
        r.index_all_columns(k, v).unwrap();
    }

    assert_eq!(Some(&vec!["1"]), r.get(Column::Str("a".to_string()), 0));
}

#[test]
fn sort_by_column_returns_correct_order() {
    let mut r: Rover<&str, SingleStringValueDecoder> = Rover::new(SingleStringValueDecoder {});
    for (k, v) in [("1", "b"), ("2", "a"), ("3", "c")] {
        r.index_all_columns(k, v).unwrap();
    }
    assert_eq!(vec!["2", "1", "3"], r.sort_by_column(0));
}

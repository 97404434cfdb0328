use matrix_market_rs::{MtxData, MtxError, SymInfo};
use std::str::FromStr;

fn lines_of(text: &str) -> Vec<String> {
    text.lines().map(String::from).collect()
}

fn read_i32(text: &str) -> Result<MtxData<i32, 2>, MtxError> {
    MtxData::from_lines(&lines_of(text))
}

#[test]
fn sparse_symmetric_with_banner() {
    let m = read_i32("%%MatrixMarket matrix coordinate integer symmetric\n2 2 2\n1 1 3\n2 2 4").unwrap();
    assert_eq!(m, MtxData::Sparse([2, 2], vec![[0, 0], [1, 1]], vec![3, 4], SymInfo::Symmetric));
}

#[test]
fn sizes_first_sparse_without_banner() {
    let m = read_i32("10 11 2\n1 1 42\n6 2 7").unwrap();
    assert_eq!(m, MtxData::Sparse([10, 11], vec![[0, 0], [5, 1]], vec![42, 7], SymInfo::General));
}

#[test]
fn sizes_first_dense_without_banner() {
    let m = read_i32("2 3\n1\n2\n3\n4\n5\n6").unwrap();
    assert_eq!(m, MtxData::Dense([2, 3], vec![1, 2, 3, 4, 5, 6], SymInfo::General));
}

#[test]
fn fractional_value_is_not_an_integer() {
    let r = read_i32("10 11 2\n1 1 0.42\n6 2 0.7");
    assert!(matches!(r, Err(MtxError::InvalidNum(ref s)) if s == "0.42"));
}

#[test]
fn unknown_symmetry_is_unsupported() {
    let r = read_i32("%%MatrixMarket matrix coordinate complex hermitian\n2 2 1\n1 1 3");
    assert!(matches!(r, Err(MtxError::UnsupportedSym(ref s)) if s == "hermitian"));
}

#[test]
fn sparse_header_without_count() {
    let r = read_i32("%%MatrixMarket matrix coordinate integer general\n10 10\n1 1 3");
    assert!(matches!(r, Err(MtxError::EarlySizesHeaderEnd)));
}

#[test]
fn zero_dimension_is_rejected() {
    let r = read_i32("%%MatrixMarket matrix coordinate integer general\n10 0 1\n1 1 3");
    assert!(matches!(r, Err(MtxError::EarlySizesHeaderEnd)));
}

#[test]
fn missing_dimension_is_rejected() {
    let r = read_i32("%%MatrixMarket matrix array integer general\n10\n1");
    assert!(matches!(r, Err(MtxError::EarlySizesHeaderEnd)));
}

#[test]
fn bad_size_token() {
    let r = read_i32("%%MatrixMarket matrix coordinate integer general\n10 x 1\n1 1 3");
    assert!(matches!(r, Err(MtxError::InvalidCoordinate(ref s)) if s == "x"));
}

#[test]
fn truncated_sparse_body() {
    let r = read_i32("%%MatrixMarket matrix coordinate integer general\n5 5 5\n1 1 1\n2 2 2\n3 3 3");
    assert!(matches!(r, Err(MtxError::EarlyEOF)));
}

#[test]
fn truncated_dense_body() {
    let r = read_i32("%%MatrixMarket matrix array integer general\n2 2\n1\n2\n3");
    assert!(matches!(r, Err(MtxError::EarlyEOF)));
}

#[test]
fn huge_dense_body_ends_early() {
    let r = read_i32("%%MatrixMarket matrix array integer general\n18446744073709551615 3\n1");
    assert!(matches!(r, Err(MtxError::EarlyEOF)));
}

#[test]
fn empty_input() {
    assert!(matches!(read_i32(""), Err(MtxError::EarlyEOF)));
}

#[test]
fn comment_only_input() {
    assert!(matches!(read_i32("% one\n%two\n  % three"), Err(MtxError::EarlyEOF)));
}

#[test]
fn blank_and_comment_input() {
    assert!(matches!(read_i32("\n   \n% note\n\t\n"), Err(MtxError::EarlyEOF)));
}

#[test]
fn banner_only_input() {
    let r = read_i32("%%MatrixMarket matrix coordinate integer general\n% nothing else");
    assert!(matches!(r, Err(MtxError::EarlyEOF)));
}

#[test]
fn comments_do_not_change_the_result() {
    let plain = read_i32("%%MatrixMarket matrix coordinate integer symmetric\n2 2 2\n1 1 3\n2 2 4").unwrap();
    let commented = read_i32(
        "% before\n%another\n%%MatrixMarket matrix coordinate integer symmetric\n% after banner\n%%\n2 2 2\n1 1 3\n2 2 4",
    )
    .unwrap();
    assert_eq!(plain, commented);
    let plain = read_i32("2 3\n1\n2\n3\n4\n5\n6").unwrap();
    let commented = read_i32("% a\n\n% b\n2 3\n1\n2\n3\n4\n5\n6").unwrap();
    assert_eq!(plain, commented);
}

#[test]
fn reading_twice_gives_equal_results() {
    let text = "%%MatrixMarket matrix coordinate integer general\n3 3 2\n1 2 -5\n3 1 8";
    assert_eq!(read_i32(text).unwrap(), read_i32(text).unwrap());
}

#[test]
fn coordinates_become_zero_based() {
    let m = read_i32("%%MatrixMarket matrix coordinate integer general\n9 9 1\n3 7 1").unwrap();
    assert_eq!(m, MtxData::Sparse([9, 9], vec![[2, 6]], vec![1], SymInfo::General));
}

#[test]
fn zero_coordinate_is_rejected() {
    let r = read_i32("%%MatrixMarket matrix coordinate integer general\n9 9 1\n0 7 1");
    assert!(matches!(r, Err(MtxError::InvalidCoordinate(ref s)) if s == "0"));
}

#[test]
fn bad_coordinate_is_rejected() {
    let r = read_i32("%%MatrixMarket matrix coordinate integer general\n9 9 1\n2 y 1");
    assert!(matches!(r, Err(MtxError::InvalidCoordinate(ref s)) if s == "y"));
}

#[test]
fn bad_sparse_value() {
    let r = read_i32("%%MatrixMarket matrix coordinate integer general\n9 9 1\n2 3 abc");
    assert!(matches!(r, Err(MtxError::InvalidNum(ref s)) if s == "abc"));
}

#[test]
fn short_entry_line() {
    let r = read_i32("%%MatrixMarket matrix coordinate integer general\n9 9 1\n2 3");
    assert!(matches!(r, Err(MtxError::EarlyLineEnd)));
}

#[test]
fn short_banner() {
    let r = read_i32("%%MatrixMarket matrix coordinate integer\n9 9 1\n2 3 1");
    assert!(matches!(r, Err(MtxError::EarlyBannerEnd)));
}

#[test]
fn bad_dense_value_reports_the_line() {
    let r = read_i32("%%MatrixMarket matrix array integer general\n1 2\n1\n  2x  ");
    assert!(matches!(r, Err(MtxError::InvalidNum(ref s)) if s == "  2x  "));
}

#[test]
fn dense_values_keep_trailing_space_out() {
    let m = read_i32("%%MatrixMarket matrix array integer general\n1 2\n+7 \n-8\t").unwrap();
    assert_eq!(m, MtxData::Dense([1, 2], vec![7, -8], SymInfo::General));
}

#[test]
fn small_symmetric_sparse() {
    let text = "%%MatrixMarket matrix coordinate integer symmetric\n% small test matrix\n5 5 7\n1 1 1\n1 3 2\n2 2 3\n2 4 4\n3 5 5\n4 5 6\n5 5 7\n";
    match read_i32(text).unwrap() {
        MtxData::Sparse(dims, indices, values, sym) => {
            assert_eq!(dims, [5, 5]);
            assert_eq!(values, vec![1, 2, 3, 4, 5, 6, 7]);
            assert_eq!(indices, vec![[0, 0], [0, 2], [1, 1], [1, 3], [2, 4], [3, 4], [4, 4]]);
            assert!(matches!(sym, SymInfo::Symmetric));
        }
        _ => panic!("Expected Sparse not Dense"),
    }
}

#[test]
fn small_general_dense() {
    let text = "%%MatrixMarket matrix array integer general\n2 3\n1\n2\n3\n4\n5\n6\n";
    match read_i32(text).unwrap() {
        MtxData::Dense(dims, values, sym) => {
            assert_eq!(dims, [2, 3]);
            assert_eq!(values, vec![1, 2, 3, 4, 5, 6]);
            assert!(matches!(sym, SymInfo::General));
        }
        _ => panic!("Expected Dense not sparse"),
    }
}

#[test]
fn extra_lines_after_body_are_ignored() {
    let m = read_i32("2 2 1\n1 2 5\nnot read").unwrap();
    assert_eq!(m, MtxData::Sparse([2, 2], vec![[0, 1]], vec![5], SymInfo::General));
}

#[test]
fn three_dimensional_sparse() {
    let m: MtxData<i64, 3> = MtxData::from_lines(&lines_of("2 3 4 1\n2 3 4 -9000000000")).unwrap();
    assert_eq!(m, MtxData::Sparse([2, 3, 4], vec![[1, 2, 3]], vec![-9000000000], SymInfo::General));
}

#[test]
fn unsigned_values() {
    let m: MtxData<u32, 2> = MtxData::from_lines(&lines_of("1 2\n4000000000\n+5")).unwrap();
    assert_eq!(m, MtxData::Dense([1, 2], vec![4000000000, 5], SymInfo::General));
    let r: Result<MtxData<u64, 2>, MtxError> = MtxData::from_lines(&lines_of("1 1\n-5"));
    assert!(matches!(r, Err(MtxError::InvalidNum(ref s)) if s == "-5"));
    let m: MtxData<u64, 2> = MtxData::from_lines(&lines_of("1 1\n18446744073709551615")).unwrap();
    assert_eq!(m, MtxData::Dense([1, 1], vec![u64::MAX], SymInfo::General));
}

#[test]
fn out_of_range_value() {
    let r = read_i32("1 1\n2147483648");
    assert!(matches!(r, Err(MtxError::InvalidNum(_))));
}

#[test]
fn symmetry_tags() {
    assert_eq!(SymInfo::from_str("general").unwrap(), SymInfo::General);
    assert_eq!(SymInfo::from_str("symmetric \n").unwrap(), SymInfo::Symmetric);
    assert!(matches!(SymInfo::from_str("skew-symmetric"), Err(MtxError::UnsupportedSym(ref s)) if s == "skew-symmetric"));
}

#[test]
fn error_messages() {
    assert_eq!(MtxError::EarlyEOF.message(), "Invalid mtx text format");
    let io = MtxError::IoError(std::io::Error::new(std::io::ErrorKind::NotFound, "gone"));
    assert_eq!(io.message(), "IO error occurs when manipulate mtx file");
    assert!(io.source().is_some());
    assert!(MtxError::EarlyLineEnd.source().is_none());
}

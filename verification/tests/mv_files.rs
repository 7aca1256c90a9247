use clams_bin::mv_files::{
    destination_path, human_size_to_bytes, human_size_to_bytes_checked, parse_extensions,
    MvFilesError,
};

#[test]
fn empty() {
    let res = human_size_to_bytes("");
    assert!(res.is_err());
}

#[test]
fn nan() {
    let res = human_size_to_bytes("a10");
    assert!(res.is_err());
}

#[test]
fn bytes() {
    assert_eq!(human_size_to_bytes("100"), Ok(100));
}

#[test]
fn kilo_bytes() {
    assert_eq!(human_size_to_bytes("100k"), Ok(100 * 1024));
}

#[test]
fn mega_bytes() {
    assert_eq!(human_size_to_bytes("100M"), Ok(100 * 1024 * 1024));
}

#[test]
fn giga_bytes() {
    assert_eq!(human_size_to_bytes("100G"), Ok(100 * 1024 * 1024 * 1024));
}

#[test]
fn tera_bytes() {
    assert_eq!(human_size_to_bytes("100T"), Ok(100 * 1024 * 1024 * 1024 * 1024));
}

#[test]
fn peta_bytes() {
    assert_eq!(human_size_to_bytes("100P"), Ok(100 * 1024 * 1024 * 1024 * 1024 * 1024));
}

#[test]
fn unknown_scale() {
    let res = human_size_to_bytes("100L");
    assert!(res.is_err());
}

#[test]
fn size_error_names_the_numeric_part() {
    match human_size_to_bytes("12x3k") {
        Err(MvFilesError::InvaildSize { arg }) => assert_eq!(arg, "12x3"),
        other => panic!("expected an invalid size, got {:?}", other),
    }
}

#[test]
fn checked_size_reports_overflow_as_none() {
    assert_eq!(human_size_to_bytes_checked("16384P"), None);
    assert_eq!(human_size_to_bytes_checked("100P"), Some(100 * 1024 * 1024 * 1024 * 1024 * 1024));
    assert_eq!(human_size_to_bytes_checked("x"), None);
}

#[test]
fn plus_prefix_parses_like_from_str() {
    assert_eq!(human_size_to_bytes("+5k"), Ok(5 * 1024));
}

#[test]
fn destination_path_ok() {
    let destination_dir = "/tmp";
    let abs_file = "/temp/a_file";
    let expected = "/tmp/a_file".to_string();

    let res = destination_path(destination_dir, abs_file);

    assert_eq!(res, Ok(expected));
}

#[test]
fn destination_path_needs_a_file_name() {
    match destination_path("/tmp", "/") {
        Err(MvFilesError::InvalidFileName { arg }) => assert_eq!(arg, "/"),
        other => panic!("expected an invalid file name, got {:?}", other),
    }
    assert!(destination_path("/tmp", "a/..").is_err());
}

#[test]
fn destination_path_keeps_existing_separator() {
    assert_eq!(destination_path("/tmp/", "b/c.txt"), Ok("/tmp/c.txt".to_string()));
    assert_eq!(destination_path("", "a/b"), Ok("b".to_string()));
}

#[test]
fn lib_empty() {
    let res = parse_extensions("");
    assert!(res.is_err());
}

#[test]
fn one_extension() {
    let res = parse_extensions("mkv");
    assert!(res.is_ok());
    assert_eq!(res.unwrap().len(), 1);
}

#[test]
fn two_extension() {
    let res = parse_extensions("mkv,avi");
    assert!(res.is_ok());
    assert_eq!(res.unwrap().len(), 2);
}

#[test]
fn two_extension_trailing_sep() {
    let res = parse_extensions("mkv,avi,");
    assert!(res.is_ok());
    assert_eq!(res.unwrap().len(), 2);
}

#[test]
fn extensions_keep_inner_empty_pieces() {
    assert_eq!(parse_extensions("a,,b"), Ok(vec!["a".to_string(), "".to_string(), "b".to_string()]));
}

#[test]
fn mv_files_error_messages() {
    let e = MvFilesError::InvaildSize { arg: "zzz".to_string() };
    assert_eq!(e.message(), "Invalid size arg 'zzz'");
    let e = MvFilesError::EmptySources;
    assert_eq!(e.message(), "Source directories missing");
    let e = MvFilesError::EmptyExtensions;
    assert_eq!(e.message(), "Extensions missing");
    let e = MvFilesError::InvalidExtensionsList { arg: "".to_string() };
    assert_eq!(e.message(), "Invalid extensions list ''");
    let e = MvFilesError::InvalidFileName { arg: "/".to_string() };
    assert_eq!(e.message(), "Invalid file name'/'");
}

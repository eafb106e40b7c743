use rolling_shutter::errors::ErrorKind;
use rolling_shutter::file_processing::{candidate_filename, format_index, parse_filemask, FileMask};

#[test]
fn test_parse_filemask() {
    let input1 = "foo%03d.png";
    let input2 = "foo%5d.jpg";
    let input3 = "foo.png";
    let input4 = "foo%02dbar%4d.png";

    let expected1 = (
        "foo".to_string(),
        FileMask {
            zero_padded: true,
            digits: 3,
        },
        ".png".to_string(),
    );

    let expected2 = (
        "foo".to_string(),
        FileMask {
            zero_padded: false,
            digits: 5,
        },
        ".jpg".to_string(),
    );

    assert_eq!(expected1, parse_filemask(input1).unwrap());
    assert_eq!(expected2, parse_filemask(input2).unwrap());
    match parse_filemask(input3) {
        Err(ErrorKind::NoFileMaskFound) => (),
        Err(e) => {
            assert!(
                false,
                "expected `{:?}`, got `{:?}` instead.",
                ErrorKind::NoFileMaskFound,
                e
            )
        }
        Ok(result) => {
            assert!(
                false,
                "expected no file mask found error, but parsing succeeded with {:?}.",
                result
            )
        }
    }
    match parse_filemask(input4) {
        Err(ErrorKind::MultipleFileMasks) => (),
        Err(e) => {
            assert!(
                false,
                "expected `{:?}`, got `{:?}` instead.",
                ErrorKind::MultipleFileMasks,
                e
            )
        }
        Ok(result) => {
            assert!(
                false,
                "expected no file mask found error, but parsing succeeded with {:?}.",
                result
            )
        }
    }
}

#[test]
fn parse_rejects_bare_percent_d() {
    // `%d` has no digit between `%` and `d`, so it is no placeholder.
    assert_eq!(parse_filemask("foo%d.png"), Err(ErrorKind::NoFileMaskFound));
}

#[test]
fn parse_zero_only_run_is_unpadded() {
    // In `%0d` the single `0` is the digit run itself, not a padding marker.
    let parsed = parse_filemask("x%0dy").unwrap();
    assert_eq!(
        parsed,
        (
            "x".to_string(),
            FileMask {
                zero_padded: false,
                digits: 0,
            },
            "y".to_string()
        )
    );
}

#[test]
fn parse_padded_zero_run() {
    // In `%00d` the first `0` marks padding and the second is the digit run.
    let parsed = parse_filemask("x%00dy").unwrap();
    assert_eq!(
        parsed,
        (
            "x".to_string(),
            FileMask {
                zero_padded: true,
                digits: 0,
            },
            "y".to_string()
        )
    );
}

#[test]
fn parse_rejects_oversized_digit_count() {
    // A digit count that cannot fit the machine's word is unparsable.
    let mask = "f%99999999999999999999999dx";
    assert_eq!(
        parse_filemask(mask),
        Err(ErrorKind::CouldNotParseFilemask(mask.to_string()))
    );
}

#[test]
fn parse_reconstructs_original_mask() {
    // Prefix + rebuilt placeholder + suffix gives back the mask.
    let (prefix, mask, suffix) = parse_filemask("img%04d.tif").unwrap();
    let rebuilt = format!(
        "{}%{}{}d{}",
        prefix,
        if mask.zero_padded { "0" } else { "" },
        mask.digits,
        suffix
    );
    assert_eq!(rebuilt, "img%04d.tif");

    let (prefix, mask, suffix) = parse_filemask("a%12db").unwrap();
    let rebuilt = format!(
        "{}%{}{}d{}",
        prefix,
        if mask.zero_padded { "0" } else { "" },
        mask.digits,
        suffix
    );
    assert_eq!(rebuilt, "a%12db");
}

#[test]
fn format_index_pads_on_request() {
    assert_eq!(format_index(7, 3), "007");
    assert_eq!(format_index(7, 0), "7");
    assert_eq!(format_index(123, 2), "123");
    assert_eq!(format_index(0, 0), "0");
    assert_eq!(format_index(0, 4), "0000");
    assert_eq!(format_index(4294967295, 0), "4294967295");
}

#[test]
fn candidate_filename_combines_parts() {
    let padded = FileMask {
        zero_padded: true,
        digits: 3,
    };
    assert_eq!(candidate_filename("f", padded, ".png", 2), "f002.png");
    assert_eq!(candidate_filename("f", padded, ".png", 1234), "f1234.png");
    let natural = FileMask {
        zero_padded: false,
        digits: 3,
    };
    assert_eq!(candidate_filename("f", natural, ".png", 2), "f2.png");
}

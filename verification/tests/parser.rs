use scale_watch::Scale;
use scale_watch::parse::compute_scale;

#[test]
fn empty_file_has_no_scales() {
    assert_eq!(compute_scale(&Vec::new()), None);
}

#[test]
fn scale_without_output_is_ignored() {
    assert_eq!(compute_scale(&b"scale 1.5\n".to_vec()), None);
}

#[test]
fn integer_literal() {
    let r = compute_scale(&b"output \"A\"\nscale 2\n".to_vec());
    assert_eq!(r, Some(Scale { num: 2, den_pow: 0 }));
}

#[test]
fn leading_zeros_kept_in_numerator() {
    let r = compute_scale(&b"output \"A\"\nscale 007.250\n".to_vec());
    assert_eq!(r, Some(Scale { num: 7250, den_pow: 3 }));
}

#[test]
fn nine_fraction_digits_accepted() {
    let r = compute_scale(&b"output \"A\"\nscale 1.000000001\n".to_vec());
    assert_eq!(r, Some(Scale { num: 1000000001, den_pow: 9 }));
}

#[test]
fn whitespace_tolerated() {
    let r = compute_scale(&b"   output   \"A\"  {\n\tscale\t1.5  \n}\n".to_vec());
    assert_eq!(r, Some(Scale { num: 15, den_pow: 1 }));
}

#[test]
fn keyword_must_stand_alone() {
    // `outputs` is not `output`, and a scale line with trailing text does
    // not match.
    assert_eq!(compute_scale(&b"outputs \"A\"\nscale 1.5\n".to_vec()), None);
    assert_eq!(compute_scale(&b"output \"A\"\nscale 1.5 x\n".to_vec()), None);
}

#[test]
fn dot_needs_digits_on_both_sides() {
    assert_eq!(compute_scale(&b"output \"A\"\nscale .5\n".to_vec()), None);
    assert_eq!(compute_scale(&b"output \"A\"\nscale 5.\n".to_vec()), None);
}

#[test]
fn unquoted_or_empty_label_does_not_declare() {
    // no quoted label: the output line does not match, so the scale line
    // that follows still has no cursor
    assert_eq!(compute_scale(&b"output eDP-1\nscale 1.5\n".to_vec()), None);
    // an empty label does not match either
    assert_eq!(compute_scale(&b"output \"\"\nscale 1.5\n".to_vec()), None);
    // an unclosed quote does not match
    assert_eq!(compute_scale(&b"output \"A\nscale 1.5\n".to_vec()), None);
}

#[test]
fn file_without_trailing_newline() {
    let r = compute_scale(&b"output \"A\"\nscale 1.75".to_vec());
    assert_eq!(r, Some(Scale { num: 175, den_pow: 2 }));
}

#[test]
fn crlf_lines_accepted() {
    let r = compute_scale(&b"output \"A\"\r\nscale 1.5\r\n".to_vec());
    assert_eq!(r, Some(Scale { num: 15, den_pow: 1 }));
}

#[test]
fn oversized_literal_skipped() {
    // a fraction longer than nine digits, or a value beyond the machine
    // range, is treated as malformed and skipped
    assert_eq!(compute_scale(&b"output \"A\"\nscale 1.0000000001\n".to_vec()), None);
    assert_eq!(
        compute_scale(&b"output \"A\"\nscale 99999999999999999999\n".to_vec()),
        None
    );
}

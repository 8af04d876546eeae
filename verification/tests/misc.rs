use rle::choose_action;
use rle::error::MyError;
use rle::output_filename;
use rle::report::ReportBuilder;
use rle::Action;

#[test]
fn action_needs_exactly_one_flag() {
    assert_eq!(Ok(Action::Encode), choose_action(true, false));
    assert_eq!(Ok(Action::Decode), choose_action(false, true));
    assert_eq!(Err(MyError::ArgumentError), choose_action(true, true));
    assert_eq!(Err(MyError::ArgumentError), choose_action(false, false));
}

#[test]
fn encode_appends_suffix() {
    assert_eq!("data.txt.rle", output_filename("data.txt", Action::Encode));
}

#[test]
fn decode_strips_suffix() {
    assert_eq!("data.txt", output_filename("data.txt.rle", Action::Decode));
}

#[test]
fn decode_keeps_other_names() {
    assert_eq!("data.txt", output_filename("data.txt", Action::Decode));
    assert_eq!("abc", output_filename("abc", Action::Decode));
    assert_eq!("", output_filename("", Action::Decode));
}

#[test]
fn report_needs_both_sizes() {
    let builder = ReportBuilder::new();
    assert!(matches!(
        builder.finalize(1),
        Err(MyError::ReportIncomplete)
    ));

    let mut builder = ReportBuilder::new();
    builder.set_origin(10);
    assert!(matches!(
        builder.finalize(1),
        Err(MyError::ReportIncomplete)
    ));

    let mut builder = ReportBuilder::new();
    builder.set_compressed(10);
    assert!(matches!(
        builder.finalize(1),
        Err(MyError::ReportIncomplete)
    ));
}

#[test]
fn report_text_is_exact() {
    let mut builder = ReportBuilder::new();
    builder.set_origin(4);
    builder.set_compressed(2);
    let report = builder.finalize(5).unwrap();
    assert_eq!(
        "Compressed/Origin = 2 / 4\nCompression rate: 0.500\nTime to work: 5 ms",
        report.finalize()
    );
}

#[test]
fn report_rate_rounds_down() {
    let mut builder = ReportBuilder::new();
    builder.set_origin(3);
    builder.set_compressed(4);
    let report = builder.finalize(120).unwrap();
    assert_eq!(
        "Compressed/Origin = 4 / 3\nCompression rate: 1.333\nTime to work: 120 ms",
        report.finalize()
    );
}

#[test]
fn report_on_empty_origin() {
    let mut builder = ReportBuilder::new();
    builder.set_origin(0);
    builder.set_compressed(0);
    let report = builder.finalize(0).unwrap();
    assert_eq!(
        "Compressed/Origin = 0 / 0\nCompression rate: 0.000\nTime to work: 0 ms",
        report.finalize()
    );
}

#[test]
fn error_messages() {
    assert_eq!("Invalid flags combination.", MyError::ArgumentError.message());
    assert_eq!("Input/output failure.", MyError::IoError.message());
    assert_eq!("Record is truncated.", MyError::TruncatedRecord.message());
    assert_eq!(
        "Invalid control byte.",
        MyError::InvalidControlByte.message()
    );
    assert_eq!("Invalid report.", MyError::ReportIncomplete.message());
}

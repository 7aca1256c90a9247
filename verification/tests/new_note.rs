use clams_bin::new_note::{
    date_to_iso_day, date_to_iso_time, render_template, str_date_to_date, title_to_file_name,
    FrontMatter, NnError, NoteDate,
};

#[test]
fn title_to_file_name_okay() {
    let title = "This is just a Punk Rock song";
    let expected = "this-is-just-a-punk-rock-song.md".to_owned();

    let res = title_to_file_name(title);

    assert_eq!(res, expected);
}

#[test]
fn str_date_to_date_okay() {
    let str_date = "2001-01-01 01:01";
    let expected = NoteDate { year: 2001, month: 1, day: 1, hour: 1, minute: 1 };

    let res = str_date_to_date(str_date);

    assert_eq!(res.unwrap(), expected);
}

#[test]
fn date_to_iso_day_okay() {
    let date = NoteDate { year: 2001, month: 1, day: 1, hour: 1, minute: 1 };
    let expected = "2001-01-01".to_owned();

    let res = date_to_iso_day(&date);

    assert_eq!(res, expected);
}

#[test]
fn date_to_iso_time_okay() {
    let date = NoteDate { year: 2001, month: 1, day: 1, hour: 1, minute: 1 };
    let expected = "2001-01-01 01:01".to_owned();

    let res = date_to_iso_time(&date);

    assert_eq!(res, expected);
}

#[test]
fn now_gives_a_valid_date() {
    let d = str_date_to_date("now").unwrap();
    assert!((1..=12).contains(&d.month));
    assert!((1..=31).contains(&d.day));
    assert!(d.hour <= 23);
    assert!(d.minute <= 59);
}

#[test]
fn bad_dates_are_rejected() {
    assert!(str_date_to_date("garbage").is_err());
    assert!(str_date_to_date("2001-13-01 00:00").is_err());
    assert!(str_date_to_date("2001-02-29 10:00").is_err());
    assert!(str_date_to_date("2001-01-01T00:00").is_err());
    match str_date_to_date("2001-01-01") {
        Err(NnError::FailedToParsePublicationDate { .. }) => {}
        other => panic!("expected a date parse failure, got {:?}", other),
    }
}

#[test]
fn leap_day_is_accepted() {
    let d = str_date_to_date("2000-02-29 10:30").unwrap();
    assert_eq!(date_to_iso_time(&d), "2000-02-29 10:30");
}

#[test]
fn iso_rendering_zero_pads() {
    let d = NoteDate { year: 987, month: 10, day: 5, hour: 7, minute: 9 };
    assert_eq!(date_to_iso_day(&d), "0987-10-05");
    assert_eq!(date_to_iso_time(&d), "0987-10-05 07:09");
}

#[test]
fn template_rendering_fills_both_fields() {
    let fm = FrontMatter { title: "A Note".to_string(), date: "2020-01-02".to_string() };
    let res = render_template("# {{title}}\ndate: {{date}}\n", &fm).unwrap();
    assert_eq!(res, "# A Note\ndate: 2020-01-02\n");
}

#[test]
fn broken_template_is_reported() {
    let fm = FrontMatter { title: "t".to_string(), date: "d".to_string() };
    match render_template("{{#if}}", &fm) {
        Err(NnError::FailedToRenderFrontmatterTemplate { .. }) => {}
        other => panic!("expected a template failure, got {:?}", other),
    }
}

#[test]
fn nn_error_messages() {
    let e = NnError::FailedToParsePublicationDate { arg: "bad".to_string() };
    assert_eq!(e.message(), "Could to parse publication date because bad");
    let e = NnError::FailedToWriteNoteFile { arg: "disk".to_string() };
    assert_eq!(e.message(), "Could not write note file because disk");
}

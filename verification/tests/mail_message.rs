use sendmail_into_mbox::mail_message::MailMessage;

#[test]
fn test_new_from_stream() {
    let input = "From: from\r\nTo: to\r\nSubject: subject\r\n\r\nbody\r\nbody\r\n".as_bytes();
    let mail = MailMessage::new_from_stream(input);
    assert_eq!(
        mail.headers(),
        &vec![
            "From: from\r\n".as_bytes().to_vec(),
            "To: to\r\n".as_bytes().to_vec(),
            "Subject: subject\r\n".as_bytes().to_vec(),
        ]
    );
    assert_eq!(mail.body(), &"body\r\nbody\r\n".as_bytes().to_vec());
}

#[test]
fn test_new_from_stream_with_broken_mail_format() {
    let input = "body\nbody".as_bytes();
    let mail = MailMessage::new_from_stream(input);
    assert!(mail.headers().is_empty());
    assert_eq!(mail.body(), &"body\r\nbody\r\n".as_bytes().to_vec());
}

#[test]
fn test_fix_mail_headers() {
    let mut mail = MailMessage::new(
        vec!["Bcc: secret\r\n".as_bytes().to_vec()],
        "\r\n".as_bytes().to_vec(),
    );
    mail.fix_mail_headers();
    assert!(mail.headers()[0].starts_with("Date: ".as_bytes()));
    assert!(mail.headers()[1].starts_with("Message-ID: ".as_bytes()));
    assert_eq!(mail.headers().len(), 2);
}

#[test]
fn test_write_to_mbox() {
    let mail = MailMessage::new(
        vec![
            "From: djb\r\n".as_bytes().to_vec(),
            "To: god\r\n".as_bytes().to_vec(),
        ],
        "From now through August I'll be doing beta testing.\r\nThanks for your interest.\r\n"
            .as_bytes()
            .to_vec(),
    );
    let mbox = mail.write_to_mbox("djb".as_bytes());

    let mbox_str = std::str::from_utf8(&mbox).unwrap();
    let mbox_lines = mbox_str.splitn(3, "\n").collect::<Vec<_>>();

    assert!(mbox_lines[0].starts_with("From djb "));
    assert!(mbox_lines[1].starts_with("Received: by localhost with sendmail_into_mbox; "));
    assert_eq!(
        mbox_lines[2],
        "From: djb\n\
         To: god\n\
         \n\
         >From now through August I'll be doing beta testing.\n\
         Thanks for your interest.\n\
         \n"
    );
    assert_eq!(mbox_lines.len(), 3);
}

#[test]
fn parse_splits_at_first_blank_line() {
    let mail = MailMessage::new_from_stream("From: a\r\nTo: b\r\n\r\nhello\r\n".as_bytes());
    assert_eq!(
        mail.headers(),
        &vec![
            "From: a\r\n".as_bytes().to_vec(),
            "To: b\r\n".as_bytes().to_vec(),
        ]
    );
    assert_eq!(mail.body(), &"hello\r\n".as_bytes().to_vec());
}

#[test]
fn parse_without_blank_line_keeps_all_as_body() {
    let mail = MailMessage::new_from_stream("just body, no headers".as_bytes());
    assert_eq!(mail.headers().len(), 0);
    assert_eq!(mail.body(), &"just body, no headers\r\n".as_bytes().to_vec());
}

#[test]
fn parse_empty_input() {
    let mail = MailMessage::new_from_stream("".as_bytes());
    assert_eq!(mail.headers().len(), 0);
    assert_eq!(mail.body(), &Vec::<u8>::new());
}

#[test]
fn parse_leading_blank_line_commits_empty_headers() {
    let mail = MailMessage::new_from_stream("\nA\n\nB\n".as_bytes());
    assert_eq!(mail.headers().len(), 0);
    assert_eq!(mail.body(), &"A\r\n\r\nB\r\n".as_bytes().to_vec());
}

#[test]
fn normalize_injects_date_before_message_id() {
    let mut mail = MailMessage::new(
        vec!["Bcc: x\r\n".as_bytes().to_vec()],
        Vec::new(),
    );
    mail.fix_mail_headers();
    let date_count = mail
        .headers()
        .iter()
        .filter(|h| h.starts_with("Date:".as_bytes()))
        .count();
    let msgid_count = mail
        .headers()
        .iter()
        .filter(|h| h.starts_with("Message-ID:".as_bytes()))
        .count();
    let bcc_count = mail
        .headers()
        .iter()
        .filter(|h| h.starts_with("Bcc:".as_bytes()))
        .count();
    assert_eq!(bcc_count, 0);
    assert_eq!(date_count, 1);
    assert_eq!(msgid_count, 1);
    assert!(mail.headers()[0].starts_with("Date:".as_bytes()));
    assert!(mail.headers()[1].starts_with("Message-ID:".as_bytes()));
}

#[test]
fn normalize_is_idempotent_on_present_headers() {
    let mut mail = MailMessage::new(
        vec![
            "Date: Mon, 1 Jan 2001 00:00:00 +0000\r\n".as_bytes().to_vec(),
            "Message-ID: <1.2.3@localhost>\r\n".as_bytes().to_vec(),
        ],
        "body\r\n".as_bytes().to_vec(),
    );
    mail.fix_mail_headers();
    let once = mail.headers().clone();
    let body_once = mail.body().clone();
    mail.fix_mail_headers();
    assert_eq!(mail.headers(), &once);
    assert_eq!(mail.body(), &body_once);
}

#[test]
fn normalize_at_fixed_instant_yields_exact_lines() {
    let mut mail = MailMessage::new(Vec::new(), "body\r\n".as_bytes().to_vec());
    mail.fix_headers_at(5, 6, 7, "Mon, 1 Jan 2001 00:00:00 +0000".as_bytes());
    assert_eq!(
        mail.headers(),
        &vec![
            "Date: Mon, 1 Jan 2001 00:00:00 +0000\r\n".as_bytes().to_vec(),
            "Message-ID: <5.6.7@localhost>\r\n".as_bytes().to_vec(),
        ]
    );
    assert_eq!(mail.body(), &"body\r\n".as_bytes().to_vec());
}

#[test]
fn normalize_renders_negative_seconds() {
    let mut mail = MailMessage::new(
        vec!["Date: d\r\n".as_bytes().to_vec()],
        Vec::new(),
    );
    mail.fix_headers_at(-5, 0, 10, "unused".as_bytes());
    assert_eq!(
        mail.headers(),
        &vec![
            "Message-ID: <-5.0.10@localhost>\r\n".as_bytes().to_vec(),
            "Date: d\r\n".as_bytes().to_vec(),
        ]
    );
}

#[test]
fn serialize_escapes_from_lines() {
    let mail = MailMessage::new(
        Vec::new(),
        "From the start\r\n>From already quoted\r\n".as_bytes().to_vec(),
    );
    let record = mail.mbox_record("a@b".as_bytes(), "CT".as_bytes(), "D8".as_bytes());
    assert_eq!(
        std::str::from_utf8(&record).unwrap(),
        "From a@b CT\n\
         Received: by localhost with sendmail_into_mbox; D8\n\
         \n\
         >From the start\n\
         >>From already quoted\n\
         \n"
    );
}

#[test]
fn serialize_leaves_other_lines_unchanged() {
    let mail = MailMessage::new(
        vec!["Subject: From a distance\r\n".as_bytes().to_vec()],
        "Fromage\r\n> From here\r\n".as_bytes().to_vec(),
    );
    let record = mail.mbox_record("s".as_bytes(), "CT".as_bytes(), "D8".as_bytes());
    assert_eq!(
        std::str::from_utf8(&record).unwrap(),
        "From s CT\n\
         Received: by localhost with sendmail_into_mbox; D8\n\
         Subject: From a distance\n\
         \n\
         Fromage\n\
         > From here\n\
         \n"
    );
}

#[test]
fn envelope_line_has_no_carriage_return() {
    let mail = MailMessage::new(Vec::new(), Vec::new());
    let mbox = mail.write_to_mbox("djb".as_bytes());
    let first_lf = mbox.iter().position(|&b| b == 10).unwrap();
    let first_line = &mbox[..first_lf];
    assert!(first_line.starts_with("From djb ".as_bytes()));
    assert!(first_line.len() > "From djb ".len());
    assert!(!first_line.contains(&13));
}

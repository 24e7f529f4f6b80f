//! End-to-end exercises of the mail gateway: storage round trips, both
//! protocol state machines, framing, and the signing fallback.

use rsa::signature::Verifier;
use temp_mail::framing::LineAssembler;
use temp_mail::imap::ImapSession;
use temp_mail::signer::DkimConfig;
use temp_mail::smtp::{deliver_message, SmtpSession};
use temp_mail::storage::EmailStorage;

fn run_smtp(session: &mut SmtpSession, store: &mut EmailStorage, line: &str) -> Option<Vec<u8>> {
    session.process_line(store, None, line.as_bytes())
}

#[test]
fn storage_round_trip() {
    let mut store = EmailStorage::new();
    assert_eq!(store.get_emails("z@y"), None);
    store.add_email("z@y".to_string(), b"first".to_vec());
    store.add_email("z@y".to_string(), b"second".to_vec());
    store.add_email("other@y".to_string(), b"third".to_vec());
    let inbox = store.get_emails("z@y").unwrap();
    assert_eq!(inbox, vec![b"first".to_vec(), b"second".to_vec()]);
    let other = store.get_emails("other@y").unwrap();
    assert_eq!(other, vec![b"third".to_vec()]);
}

#[test]
fn storage_fetch_is_one_based() {
    let mut store = EmailStorage::new();
    store.add_email("a".to_string(), b"m1".to_vec());
    store.add_email("a".to_string(), b"m2".to_vec());
    assert_eq!(store.fetch_message(b"a", 0), None);
    assert_eq!(store.fetch_message(b"a", 1), Some(b"m1".to_vec()));
    assert_eq!(store.fetch_message(b"a", 2), Some(b"m2".to_vec()));
    assert_eq!(store.fetch_message(b"a", 3), None);
    assert_eq!(store.fetch_message(b"missing", 1), None);
    assert_eq!(store.count_messages(b"a"), 2);
    assert_eq!(store.count_messages(b"missing"), 0);
}

#[test]
fn storage_list_snapshot_of_absent_is_empty() {
    let store = EmailStorage::new();
    let listing = store.list_messages(b"nobody");
    assert!(listing.is_empty());
}

#[test]
fn submission_happy_path() {
    let mut store = EmailStorage::new();
    let mut session = SmtpSession::new();
    assert_eq!(run_smtp(&mut session, &mut store, "HELO a").unwrap(), b"250 Hello\r\n".to_vec());
    assert_eq!(
        run_smtp(&mut session, &mut store, "MAIL FROM:<x@y>").unwrap(),
        b"250 OK\r\n".to_vec()
    );
    assert_eq!(
        run_smtp(&mut session, &mut store, "RCPT TO:<z@y>").unwrap(),
        b"250 OK\r\n".to_vec()
    );
    assert_eq!(
        run_smtp(&mut session, &mut store, "DATA").unwrap(),
        b"354 End data with a single dot line\r\n".to_vec()
    );
    assert_eq!(run_smtp(&mut session, &mut store, "hello"), None);
    assert_eq!(
        run_smtp(&mut session, &mut store, ".").unwrap(),
        b"250 OK message accepted\r\n".to_vec()
    );
    let inbox = store.get_emails("z@y").unwrap();
    assert_eq!(inbox, vec![b"hello\n".to_vec()]);
}

#[test]
fn submission_unknown_command_keeps_session_usable() {
    let mut store = EmailStorage::new();
    let mut session = SmtpSession::new();
    assert_eq!(
        run_smtp(&mut session, &mut store, "FOO").unwrap(),
        b"500 Unknown command\r\n".to_vec()
    );
    assert!(!session.is_closed());
    assert_eq!(run_smtp(&mut session, &mut store, "HELO a").unwrap(), b"250 Hello\r\n".to_vec());
}

#[test]
fn submission_multiple_recipients_each_get_the_message() {
    let mut store = EmailStorage::new();
    let mut session = SmtpSession::new();
    run_smtp(&mut session, &mut store, "MAIL FROM:<x@y>");
    run_smtp(&mut session, &mut store, "RCPT TO:<a@y>");
    run_smtp(&mut session, &mut store, "RCPT TO:<b@y>");
    run_smtp(&mut session, &mut store, "RCPT TO:<a@y>");
    run_smtp(&mut session, &mut store, "DATA");
    run_smtp(&mut session, &mut store, "body line");
    run_smtp(&mut session, &mut store, ".");
    assert_eq!(store.get_emails("a@y").unwrap(), vec![b"body line\n".to_vec()]);
    assert_eq!(store.get_emails("b@y").unwrap(), vec![b"body line\n".to_vec()]);
}

#[test]
fn submission_data_without_recipients_is_refused() {
    let mut store = EmailStorage::new();
    let mut session = SmtpSession::new();
    assert_eq!(
        run_smtp(&mut session, &mut store, "DATA").unwrap(),
        b"554 No valid recipients\r\n".to_vec()
    );
    assert!(!session.is_closed());
}

#[test]
fn submission_malformed_mail_is_rejected() {
    let mut store = EmailStorage::new();
    let mut session = SmtpSession::new();
    assert_eq!(
        run_smtp(&mut session, &mut store, "MAIL x@y").unwrap(),
        b"500 Missing address\r\n".to_vec()
    );
}

#[test]
fn submission_quit_closes() {
    let mut store = EmailStorage::new();
    let mut session = SmtpSession::new();
    assert_eq!(run_smtp(&mut session, &mut store, "QUIT").unwrap(), b"221 Bye\r\n".to_vec());
    assert!(session.is_closed());
}

#[test]
fn submission_envelope_resets_after_message() {
    let mut store = EmailStorage::new();
    let mut session = SmtpSession::new();
    run_smtp(&mut session, &mut store, "MAIL FROM:<x@y>");
    run_smtp(&mut session, &mut store, "RCPT TO:<z@y>");
    run_smtp(&mut session, &mut store, "DATA");
    run_smtp(&mut session, &mut store, "one");
    run_smtp(&mut session, &mut store, ".");
    // The pending-recipient set was cleared: a new DATA needs new recipients.
    assert_eq!(
        run_smtp(&mut session, &mut store, "DATA").unwrap(),
        b"554 No valid recipients\r\n".to_vec()
    );
    assert_eq!(store.get_emails("z@y").unwrap().len(), 1);
}

#[test]
fn interleaved_sessions_accumulate_one_mailbox() {
    let mut store = EmailStorage::new();
    let mut first = SmtpSession::new();
    let mut second = SmtpSession::new();
    for s in [&mut first, &mut second] {
        run_smtp(s, &mut store, "MAIL FROM:<x@y>");
        run_smtp(s, &mut store, "RCPT TO:<shared@y>");
        run_smtp(s, &mut store, "DATA");
    }
    run_smtp(&mut first, &mut store, "from first");
    run_smtp(&mut second, &mut store, "from second");
    run_smtp(&mut second, &mut store, ".");
    run_smtp(&mut first, &mut store, ".");
    let inbox = store.get_emails("shared@y").unwrap();
    assert_eq!(inbox, vec![b"from second\n".to_vec(), b"from first\n".to_vec()]);
}

#[test]
fn signing_failure_still_delivers_unsigned() {
    // A 256-bit key is far too small for an RSA-SHA256 signature, so the
    // signer must fail; the message must still reach every mailbox raw.
    let key = rsa::RsaPrivateKey::new(&mut rand::thread_rng(), 256).unwrap();
    let config = DkimConfig::new(key, "sel", "example.com");
    assert!(config.sign_email(b"hello\n").is_err());

    let mut store = EmailStorage::new();
    let mut session = SmtpSession::new();
    session.process_line(&mut store, Some(&config), b"MAIL FROM:<x@y>");
    session.process_line(&mut store, Some(&config), b"RCPT TO:<a@y>");
    session.process_line(&mut store, Some(&config), b"RCPT TO:<b@y>");
    session.process_line(&mut store, Some(&config), b"DATA");
    session.process_line(&mut store, Some(&config), b"hello");
    let reply = session.process_line(&mut store, Some(&config), b".");
    assert_eq!(reply.unwrap(), b"250 OK message accepted\r\n".to_vec());
    assert_eq!(store.get_emails("a@y").unwrap(), vec![b"hello\n".to_vec()]);
    assert_eq!(store.get_emails("b@y").unwrap(), vec![b"hello\n".to_vec()]);
}

#[test]
fn deliver_message_falls_back_to_raw_body() {
    let mut store = EmailStorage::new();
    let recipients = vec![b"a@y".to_vec(), b"b@y".to_vec()];
    deliver_message(&mut store, &recipients, b"raw body\n", None);
    assert_eq!(store.get_emails("a@y").unwrap(), vec![b"raw body\n".to_vec()]);
    assert_eq!(store.get_emails("b@y").unwrap(), vec![b"raw body\n".to_vec()]);
}

#[test]
fn signed_message_carries_verifiable_signature() {
    let key = rsa::RsaPrivateKey::new(&mut rand::thread_rng(), 1024).unwrap();
    let public = rsa::RsaPublicKey::from(&key);
    let config = DkimConfig::new(key, "sel", "example.com");
    let raw = b"Subject: hi\r\n\r\nbody\r\n";
    let signed = config.sign_email(raw).unwrap();
    let text = String::from_utf8(signed.clone()).unwrap();
    assert!(text.starts_with("DKIM-Signature: v=1; a=rsa-sha256; d=example.com; s=sel; b="));
    assert!(signed.ends_with(raw));
    let header_end = text.find("\r\n").unwrap();
    let b64_start = text.find("; b=").unwrap() + 4;
    let sig_bytes = base64::Engine::decode(
        &base64::engine::general_purpose::STANDARD,
        &text[b64_start..header_end],
    )
    .unwrap();
    let sig = rsa::pkcs1v15::Signature::try_from(sig_bytes.as_slice()).unwrap();
    let verifier = rsa::pkcs1v15::VerifyingKey::<rsa::sha2::Sha256>::new(public);
    verifier.verify(raw, &sig).unwrap();
}

#[test]
fn retrieval_fetch_without_selection_is_rejected() {
    let store = EmailStorage::new();
    let mut session = ImapSession::new();
    let reply = session.process_line(&store, b"a1 FETCH 1 BODY[] z@y").unwrap();
    assert_eq!(reply, b"a1 NO No mailbox selected\r\n".to_vec());
    assert!(!session.is_closed());
}

#[test]
fn retrieval_select_requires_login() {
    let store = EmailStorage::new();
    let mut session = ImapSession::new();
    let reply = session.process_line(&store, b"a1 SELECT z@y").unwrap();
    assert_eq!(reply, b"a1 NO Not authenticated\r\n".to_vec());
}

#[test]
fn retrieval_login_select_fetch() {
    let mut store = EmailStorage::new();
    store.add_email("z@y".to_string(), b"hello\n".to_vec());
    let mut session = ImapSession::new();
    assert_eq!(
        session.process_line(&store, b"a1 LOGIN user pass").unwrap(),
        b"a1 OK Login successful\r\n".to_vec()
    );
    assert_eq!(
        session.process_line(&store, b"a2 SELECT z@y").unwrap(),
        b"* FLAGS (\\Seen)\r\n* 1 EXISTS\r\n* OK [UIDVALIDITY 1]\r\na2 OK Select completed\r\n"
            .to_vec()
    );
    assert_eq!(
        session.process_line(&store, b"a3 FETCH 1 BODY[] z@y").unwrap(),
        b"* 1 FETCH (BODY[] {6})\r\nhello\n\r\na3 OK Fetch completed\r\n".to_vec()
    );
    assert_eq!(
        session.process_line(&store, b"a4 FETCH 2 BODY[] z@y").unwrap(),
        b"a4 NO Message does not exist\r\n".to_vec()
    );
    assert_eq!(
        session.process_line(&store, b"a5 FETCH x BODY[] z@y").unwrap(),
        b"a5 BAD Invalid arguments\r\n".to_vec()
    );
    assert_eq!(
        session.process_line(&store, b"a6 LOGOUT").unwrap(),
        b"* BYE\r\n".to_vec()
    );
    assert!(session.is_closed());
}

#[test]
fn retrieval_select_of_empty_mailbox_counts_zero() {
    let store = EmailStorage::new();
    let mut session = ImapSession::new();
    session.process_line(&store, b"a1 LOGIN user pass");
    assert_eq!(
        session.process_line(&store, b"a2 SELECT empty@y").unwrap(),
        b"* FLAGS (\\Seen)\r\n* 0 EXISTS\r\n* OK [UIDVALIDITY 1]\r\na2 OK Select completed\r\n"
            .to_vec()
    );
}

#[test]
fn retrieval_rejects_malformed_argument_counts() {
    let mut store = EmailStorage::new();
    store.add_email("z@y".to_string(), b"hello\n".to_vec());
    let mut session = ImapSession::new();
    session.process_line(&store, b"a1 LOGIN user pass");
    assert_eq!(
        session.process_line(&store, b"a2 LOGIN user").unwrap(),
        b"a2 BAD Invalid arguments\r\n".to_vec()
    );
    session.process_line(&store, b"a3 SELECT z@y");
    assert_eq!(
        session.process_line(&store, b"a4 FETCH 1").unwrap(),
        b"a4 BAD Invalid arguments\r\n".to_vec()
    );
    assert_eq!(
        session.process_line(&store, b"a5 BREW").unwrap(),
        b"a5 BAD Unknown command\r\n".to_vec()
    );
    assert_eq!(session.process_line(&store, b"a6").unwrap(), b"a6 BAD Missing command\r\n".to_vec());
    assert_eq!(session.process_line(&store, b""), None);
}

#[test]
fn framing_reassembles_split_and_batched_lines() {
    let mut assembler = LineAssembler::new();
    assembler.push_chunk(b"HELO");
    assert_eq!(assembler.next_line(), None);
    assembler.push_chunk(b" a\r\nMAIL FROM:<x@y>\r\nRC");
    assert_eq!(assembler.next_line(), Some(b"HELO a".to_vec()));
    assert_eq!(assembler.next_line(), Some(b"MAIL FROM:<x@y>".to_vec()));
    assert_eq!(assembler.next_line(), None);
    assembler.push_chunk(b"PT TO:<z@y>\n");
    assert_eq!(assembler.next_line(), Some(b"RCPT TO:<z@y>".to_vec()));
    assert_eq!(assembler.next_line(), None);
}

use my_git::commands::clone::{
    pack_from_upload_response, read_ref_discovery,
    can_parse_ref_discovery, destination_dir, entry_mode, parse_ref_discovery, request_fits,
    upload_pack_request, CloneError, EntryMode,
};
use my_git::packfile::{PackError, ParseAction, ParseEvent};
use sha1::Digest;

#[test]
fn destination_from_url() {
    assert_eq!(destination_dir(b"https://host/user/repo.git", None), Ok(b"repo".to_vec()));
    assert_eq!(destination_dir(b"https://host/user/repo.git.git", None), Ok(b"repo".to_vec()));
    assert_eq!(destination_dir(b"https://host/user/repo", None), Ok(b"repo".to_vec()));
    assert_eq!(destination_dir(b"https://host/user/", None), Ok(b"".to_vec()));
}

#[test]
fn destination_given() {
    assert_eq!(destination_dir(b"no-slash", Some(b"here")), Ok(b"here".to_vec()));
}

#[test]
fn destination_invalid_url() {
    assert_eq!(destination_dir(b"repo.git", None), Err(CloneError::InvalidUrl));
    assert_eq!(destination_dir(b"", None), Err(CloneError::InvalidUrl));
}

#[test]
fn entry_modes() {
    assert_eq!(entry_mode(b"100755"), Ok(EntryMode::Executable));
    assert_eq!(entry_mode(b"100644"), Ok(EntryMode::Regular));
    assert_eq!(entry_mode(b"40000"), Ok(EntryMode::Directory));
    assert_eq!(entry_mode(b"120000"), Err(CloneError::UnknownMode));
    assert_eq!(EntryMode::Executable.permissions(), Some(0o755));
    assert_eq!(EntryMode::Regular.permissions(), Some(0o644));
    assert_eq!(EntryMode::Directory.permissions(), None);
}

#[test]
fn want_request_body() {
    let refs = vec![b"abc".to_vec(), b"0123456789012345678901234567890123456789".to_vec()];
    assert!(request_fits(&refs));
    let expected = b"000dwant abc\n0032want 0123456789012345678901234567890123456789\n00000009done\n".to_vec();
    assert_eq!(upload_pack_request(&refs), expected);
    assert_eq!(upload_pack_request(&[]), b"00000009done\n".to_vec());
}

#[test]
fn want_request_too_long() {
    let refs = vec![vec![b'a'; 65526]];
    assert!(!request_fits(&refs));
    let refs = vec![vec![b'a'; 65525]];
    assert!(request_fits(&refs));
}

const ADVERTISEMENT: &[u8] =
    b"001e# service=git-upload-pack\n00000155aaaa HEAD\0side-band\n003fbbbb refs/heads/main\n003fcccc refs/tags/v1\n0000";

#[test]
fn discovery_reads_head_and_refs() {
    assert!(can_parse_ref_discovery(200, ADVERTISEMENT));
    assert_eq!(
        parse_ref_discovery(200, ADVERTISEMENT),
        Ok((b"aaaa".to_vec(), vec![b"bbbb".to_vec(), b"cccc".to_vec()]))
    );
    assert_eq!(
        parse_ref_discovery(304, b"001e# service=git-upload-pack\n00000155aaaa HEAD"),
        Ok((b"aaaa".to_vec(), vec![]))
    );
    // a trailing newline leaves an empty line, which is too short to slice
    assert!(!can_parse_ref_discovery(304, b"001e# service=git-upload-pack\n00000155aaaa HEAD\n"));
}

#[test]
fn discovery_errors() {
    assert_eq!(parse_ref_discovery(500, ADVERTISEMENT), Err(CloneError::BadStatus));
    assert_eq!(parse_ref_discovery(200, b"hello\nworld"), Err(CloneError::NotAdvertisement));
    assert_eq!(parse_ref_discovery(200, b"001e# service=git-upload-pack"), Err(CloneError::MissingHead));
    assert_eq!(
        parse_ref_discovery(200, b"001e# service=git-upload-pack\n00000155aaaaHEAD"),
        Err(CloneError::MissingHead)
    );
    assert_eq!(
        parse_ref_discovery(200, b"001e# service=git-upload-pack\n00000155aaaa main\n"),
        Err(CloneError::HeadNotFirst)
    );
    assert_eq!(
        parse_ref_discovery(200, b"001e# service=git-upload-pack\n00000155aaaa HEAD\n003fbbbb\n"),
        Err(CloneError::BadReference)
    );
}

#[test]
fn discovery_short_lines_cannot_be_read() {
    assert!(!can_parse_ref_discovery(200, b"001e# service=git-upload-pack\n0000"));
    assert!(!can_parse_ref_discovery(200, b"001e# service=git-upload-pack\n00000155aaaa HEAD\nab"));
}

#[test]
fn lines_after_flush_are_not_read() {
    let expected = Ok((b"aaaa".to_vec(), vec![b"bbbb".to_vec(), b"cccc".to_vec()]));
    let mut other = ADVERTISEMENT.to_vec();
    other.extend_from_slice(b"\nno space here\nab");
    assert_eq!(parse_ref_discovery(200, &other), expected);
    let mut other = ADVERTISEMENT.to_vec();
    other.extend_from_slice(b"\n");
    assert_eq!(parse_ref_discovery(200, &other), expected);
    assert_eq!(parse_ref_discovery(200, ADVERTISEMENT), expected);
}

#[test]
fn pack_from_reply_drops_acknowledgement() {
    let mut pack = b"PACK".to_vec();
    pack.extend_from_slice(&2u32.to_be_bytes());
    pack.extend_from_slice(&0u32.to_be_bytes());
    let digest = sha1::Sha1::digest(&pack);
    pack.extend_from_slice(&digest);
    let mut reply = b"0008NAK\n".to_vec();
    reply.extend_from_slice(&pack);
    let mut parsed = pack_from_upload_response(reply.clone()).unwrap();
    assert_eq!(parsed.parse(ParseEvent::Next), Ok(ParseAction::Continue));
    assert_eq!(parsed.parse(ParseEvent::Next), Ok(ParseAction::Done));
    // the checksum covers the pack, not the acknowledgement
    let mut bad = b"0008NAK\n".to_vec();
    bad.extend_from_slice(&reply);
    assert_eq!(pack_from_upload_response(bad).unwrap_err(), PackError::ChecksumMismatch);
}

#[test]
fn discovery_with_given_match_outcome() {
    let body = b"first line\n00000155aaaa HEAD\n003fbbbb refs/heads/main";
    assert_eq!(read_ref_discovery(200, Some(true), body), Some(Ok((b"aaaa".to_vec(), vec![b"bbbb".to_vec()]))));
    assert_eq!(read_ref_discovery(200, Some(false), body), Some(Err(CloneError::NotAdvertisement)));
    assert_eq!(read_ref_discovery(200, None, body), Some(Err(CloneError::BadPattern)));
    assert_eq!(read_ref_discovery(404, Some(true), body), Some(Err(CloneError::BadStatus)));
    assert_eq!(read_ref_discovery(200, Some(true), b"x\n0000"), None);
}

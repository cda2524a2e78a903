use gitpow::commit::CommitBuffer;
use gitpow::error::MineError;
use gitpow::hasher::{digest, object_digest};

const PLAIN: &str = "tree 4b825dc642cb6eb9a060e54bf8d69288fbee4904\nauthor A U Thor <author@example.com> 1600000000 +0000\ncommitter A U Thor <author@example.com> 1600000000 +0000\n\nInitial commit\n";

const PLAIN_WITH_NONCE: &str = "tree 4b825dc642cb6eb9a060e54bf8d69288fbee4904\nauthor A U Thor <author@example.com> 1600000000 +0000\ncommitter A U Thor <author@example.com> 1600000000 +0000\nnonce AAAAAAAAAAAAAAAAAAAAAAAAAAAAAAAA\n\nInitial commit\n";

const SIGNED: &str = "tree 4b825dc642cb6eb9a060e54bf8d69288fbee4904\nauthor A U Thor <author@example.com> 1600000000 +0000\ncommitter A U Thor <author@example.com> 1600000000 +0000\ngpgsig -----BEGIN PGP SIGNATURE-----\n \n iQEzBAABCAAdFiEE\n =abcd\n -----END PGP SIGNATURE-----\n\nSigned commit\n";

const SIGNED_WITH_NONCE: &str = "tree 4b825dc642cb6eb9a060e54bf8d69288fbee4904\nauthor A U Thor <author@example.com> 1600000000 +0000\ncommitter A U Thor <author@example.com> 1600000000 +0000\ngpgsig -----BEGIN PGP SIGNATURE-----\nNonce: AAAAAAAAAAAAAAAAAAAAAAAAAAAAAAAA\n \n iQEzBAABCAAdFiEE\n =abcd\n -----END PGP SIGNATURE-----\n\nSigned commit\n";

#[test]
fn plain_commit_gets_a_trailer() {
    let commit = CommitBuffer::new(PLAIN.as_bytes()).unwrap();
    assert_eq!(commit.data(), PLAIN_WITH_NONCE);
    assert_eq!(commit.nonce(), b"AAAAAAAAAAAAAAAAAAAAAAAAAAAAAAAA");
    assert_eq!(commit.to_text(), PLAIN_WITH_NONCE);
    assert_eq!(commit.bytes(), PLAIN_WITH_NONCE.as_bytes());
}

#[test]
fn trailer_is_the_last_line_of_the_metadata() {
    let commit = CommitBuffer::new(PLAIN.as_bytes()).unwrap();
    let text = commit.data();
    let blank = text.find("\n\n").unwrap();
    let line_start = text[..blank].rfind('\n').unwrap() + 1;
    assert_eq!(&text[line_start..blank], "nonce AAAAAAAAAAAAAAAAAAAAAAAAAAAAAAAA");
    assert_eq!(text.matches("\nnonce ").count(), 1);
}

#[test]
fn parsing_again_adds_nothing() {
    let once = CommitBuffer::new(PLAIN.as_bytes()).unwrap();
    let twice = CommitBuffer::new(once.data().as_bytes()).unwrap();
    assert_eq!(twice.data(), once.data());
    assert_eq!(twice.hash_input(), once.hash_input());
    assert_eq!(twice.fixed_prefix(), once.fixed_prefix());
}

#[test]
fn parsing_again_keeps_a_written_nonce() {
    let mut once = CommitBuffer::new(PLAIN.as_bytes()).unwrap();
    once.write_nonce(134);
    let twice = CommitBuffer::new(once.data().as_bytes()).unwrap();
    assert_eq!(twice.data(), once.data());
    assert_eq!(twice.nonce(), b"AAAAAAAAAAAAAAAAAAAAAAAAAAAAAAIG");
}

#[test]
fn signed_commit_gets_a_header_inside_the_signature() {
    let commit = CommitBuffer::new(SIGNED.as_bytes()).unwrap();
    assert_eq!(commit.data(), SIGNED_WITH_NONCE);
    assert_eq!(commit.nonce(), b"AAAAAAAAAAAAAAAAAAAAAAAAAAAAAAAA");
}

#[test]
fn bytes_in_front_of_the_signature_and_behind_it_stay() {
    let inputs = [
        SIGNED.to_string(),
        SIGNED.replace("gpgsig ", "gpgsig \u{e9} "),
        "tree 1\ngpgsig -----BEGIN PGP SIGNATURE-----\nNonce: xyz\n \n iQ\n -----END PGP SIGNATURE-----\n\nm\n x\n".to_string(),
        "tree 1\ngpgsig -----BEGIN PGP SIGNATURE-----\nNonce: ABCDEFGHIJKLMNOPABCDEFGHIJKLMNOPABCDEFGH\n -----END PGP SIGNATURE-----\n\nm\n".to_string(),
    ];
    for input in inputs {
        let commit = CommitBuffer::new(input.as_bytes()).unwrap();
        let text = commit.data();
        let begin = input.find("-----BEGIN PGP SIGNATURE-----").unwrap();
        let end = input.find("-----END PGP SIGNATURE-----").unwrap() + 27;
        assert_eq!(&text[..begin], &input[..begin]);
        assert_eq!(&text[text.len() - (input.len() - end)..], &input[end..]);
        let nonce_at = text.find("\nNonce: ").unwrap() + 8;
        assert!(begin + 29 <= nonce_at - 8);
        assert!(nonce_at + 32 < text.find("-----END PGP SIGNATURE-----").unwrap());
        assert_eq!(commit.nonce(), &text.as_bytes()[nonce_at..nonce_at + 32]);
    }
}

#[test]
fn continuation_line_behind_the_closing_line_is_no_place_for_the_nonce() {
    let made = CommitBuffer::new(
        b"-----BEGIN PGP SIGNATURE----------END PGP SIGNATURE-----\n\ng\n x",
    );
    assert!(matches!(made, Err(MineError::MalformedCommitEncoding)));
    let made = CommitBuffer::new(
        b"tree 1\ngpgsig -----BEGIN PGP SIGNATURE-----\n-----END PGP SIGNATURE-----\n\nm\n x\n",
    );
    assert!(matches!(made, Err(MineError::MalformedCommitEncoding)));
}

#[test]
fn signed_commit_without_the_empty_line_is_malformed() {
    let made = CommitBuffer::new(b"-----BEGIN PGP SIGNATURE-----\n x");
    assert!(matches!(made, Err(MineError::MalformedCommitEncoding)));
    let made = CommitBuffer::new(
        b"tree 1\ngpgsig -----BEGIN PGP SIGNATURE-----\n \n iQ\n -----END PGP SIGNATURE-----\nm\n",
    );
    assert!(matches!(made, Err(MineError::MalformedCommitEncoding)));
}

#[test]
fn signature_without_closing_line_gets_its_header() {
    let input = "tree 1\ngpgsig -----BEGIN PGP SIGNATURE-----\n \n iQ\n\nmessage\n";
    let commit = CommitBuffer::new(input.as_bytes()).unwrap();
    assert_eq!(
        commit.data(),
        "tree 1\ngpgsig -----BEGIN PGP SIGNATURE-----\nNonce: AAAAAAAAAAAAAAAAAAAAAAAAAAAAAAAA\n \n iQ\n\nmessage\n"
    );
    let again = CommitBuffer::new(commit.data().as_bytes()).unwrap();
    assert_eq!(again.data(), commit.data());

    let short = CommitBuffer::new(b"-----BEGIN PGP SIGNATURE-----\n x\n\n").unwrap();
    assert_eq!(
        short.data(),
        "-----BEGIN PGP SIGNATURE-----\nNonce: AAAAAAAAAAAAAAAAAAAAAAAAAAAAAAAA\n x\n\n"
    );
}

#[test]
fn existing_header_without_closing_line_is_reset() {
    let input = "tree 1\ngpgsig -----BEGIN PGP SIGNATURE-----\nNonce: xyz\n iQ\n\nmessage\n";
    let commit = CommitBuffer::new(input.as_bytes()).unwrap();
    assert_eq!(
        commit.data(),
        "tree 1\ngpgsig -----BEGIN PGP SIGNATURE-----\nNonce: AAAAAAAAAAAAAAAAAAAAAAAAAAAAAAAA\n iQ\n\nmessage\n"
    );
}

#[test]
fn header_without_line_break_behind_it_is_no_field() {
    let made = CommitBuffer::new(b"\n\n-----BEGIN PGP SIGNATURE-----\nNonce: abc");
    assert!(matches!(made, Err(MineError::MalformedCommitEncoding)));
    let commit = CommitBuffer::new(b"\n\n-----BEGIN PGP SIGNATURE-----\n x\nNonce: abc").unwrap();
    assert_eq!(
        commit.data(),
        "\n\n-----BEGIN PGP SIGNATURE-----\nNonce: AAAAAAAAAAAAAAAAAAAAAAAAAAAAAAAA\n x\nNonce: abc"
    );
}

#[test]
fn existing_header_is_reset_where_no_continuation_line_follows() {
    let input = "tree 1\ngpgsig -----BEGIN PGP SIGNATURE-----\nNonce: xyz\n-----END PGP SIGNATURE-----\n\nm\n";
    let commit = CommitBuffer::new(input.as_bytes()).unwrap();
    assert_eq!(
        commit.data(),
        "tree 1\ngpgsig -----BEGIN PGP SIGNATURE-----\nNonce: AAAAAAAAAAAAAAAAAAAAAAAAAAAAAAAA\n-----END PGP SIGNATURE-----\n\nm\n"
    );
    let again = CommitBuffer::new(commit.data().as_bytes()).unwrap();
    assert_eq!(again.data(), commit.data());
}

#[test]
fn header_whose_line_runs_into_the_closing_line_is_no_field() {
    let made = CommitBuffer::new(
        b"tree 1\ngpgsig -----BEGIN PGP SIGNATURE-----\nNonce: abc -----END PGP SIGNATURE-----\n\nm\n",
    );
    assert!(matches!(made, Err(MineError::MalformedCommitEncoding)));
    let input = "tree 1\ngpgsig -----BEGIN PGP SIGNATURE-----\n iQ\nNonce: abc -----END PGP SIGNATURE-----\n\nm\n";
    let commit = CommitBuffer::new(input.as_bytes()).unwrap();
    assert_eq!(
        commit.data(),
        "tree 1\ngpgsig -----BEGIN PGP SIGNATURE-----\nNonce: AAAAAAAAAAAAAAAAAAAAAAAAAAAAAAAA\n iQ\nNonce: abc -----END PGP SIGNATURE-----\n\nm\n"
    );
}

#[test]
fn signed_commit_is_unchanged_outside_the_signature() {
    let commit = CommitBuffer::new(SIGNED.as_bytes()).unwrap();
    let text = commit.data();
    let marker = "-----BEGIN PGP SIGNATURE-----";
    let opened = SIGNED.find(marker).unwrap() + marker.len();
    assert_eq!(&text[..opened], &SIGNED[..opened]);
    let added = text.len() - SIGNED.len();
    assert_eq!(added, 40);
    assert_eq!(&text[opened + added..], &SIGNED[opened..]);
    assert_eq!(&text[opened..opened + added], "\nNonce: AAAAAAAAAAAAAAAAAAAAAAAAAAAAAAAA");
    let end = text.find("-----END PGP SIGNATURE-----").unwrap();
    let nonce_at = text.find("Nonce: ").unwrap();
    assert!(opened < nonce_at && nonce_at + 39 < end);
}

#[test]
fn signed_commit_parses_to_itself() {
    let once = CommitBuffer::new(SIGNED.as_bytes()).unwrap();
    let twice = CommitBuffer::new(once.data().as_bytes()).unwrap();
    assert_eq!(twice.data(), once.data());
    assert_eq!(twice.data(), SIGNED_WITH_NONCE);
}

#[test]
fn short_trailer_value_is_reset() {
    let input = "tree 1234\nnonce ABC\n\nmessage\n";
    let commit = CommitBuffer::new(input.as_bytes()).unwrap();
    assert_eq!(commit.data(), "tree 1234\nnonce AAAAAAAAAAAAAAAAAAAAAAAAAAAAAAAA\n\nmessage\n");
}

#[test]
fn empty_trailer_value_is_reset() {
    let input = "tree 1234\nnonce \n\nmessage\n";
    let commit = CommitBuffer::new(input.as_bytes()).unwrap();
    assert_eq!(commit.data(), "tree 1234\nnonce AAAAAAAAAAAAAAAAAAAAAAAAAAAAAAAA\n\nmessage\n");
}

#[test]
fn long_trailer_value_is_reset() {
    let input = "tree 1234\nnonce ABCDEFGHIJKLMNOPABCDEFGHIJKLMNOPABCD\nparent 5\n\nmessage\n";
    let commit = CommitBuffer::new(input.as_bytes()).unwrap();
    assert_eq!(
        commit.data(),
        "tree 1234\nnonce AAAAAAAAAAAAAAAAAAAAAAAAAAAAAAAA\nparent 5\n\nmessage\n"
    );
}

#[test]
fn well_formed_trailer_value_is_kept() {
    let input = "tree 1234\nnonce ABCDEFGHIJKLMNOPABCDEFGHIJKLMNOP\n\nmessage\n";
    let commit = CommitBuffer::new(input.as_bytes()).unwrap();
    assert_eq!(commit.data(), input);
    assert_eq!(commit.nonce(), b"ABCDEFGHIJKLMNOPABCDEFGHIJKLMNOP");
}

#[test]
fn trailer_value_outside_the_alphabet_is_reset() {
    let input = "tree 1234\nnonce 0123456789abcdef0123456789abcdef\n\nmessage\n";
    let commit = CommitBuffer::new(input.as_bytes()).unwrap();
    assert_eq!(commit.data(), "tree 1234\nnonce AAAAAAAAAAAAAAAAAAAAAAAAAAAAAAAA\n\nmessage\n");
}

#[test]
fn existing_armor_header_is_reset() {
    let input = "tree 1\ngpgsig -----BEGIN PGP SIGNATURE-----\nNonce: xyz\n \n iQ\n -----END PGP SIGNATURE-----\n\nm\n";
    let commit = CommitBuffer::new(input.as_bytes()).unwrap();
    assert_eq!(
        commit.data(),
        "tree 1\ngpgsig -----BEGIN PGP SIGNATURE-----\nNonce: AAAAAAAAAAAAAAAAAAAAAAAAAAAAAAAA\n \n iQ\n -----END PGP SIGNATURE-----\n\nm\n"
    );
}

#[test]
fn word_nonce_in_the_message_is_left_alone() {
    let input = "tree 1234\nauthor me\n\nadd nonce support\nnonce here\n";
    let commit = CommitBuffer::new(input.as_bytes()).unwrap();
    assert_eq!(
        commit.data(),
        "tree 1234\nauthor me\nnonce AAAAAAAAAAAAAAAAAAAAAAAAAAAAAAAA\n\nadd nonce support\nnonce here\n"
    );
}

#[test]
fn word_nonce_inside_a_metadata_line_is_left_alone() {
    let input = "tree 1234\nauthor announce <nonce @example.com>\n\nmessage\n";
    let commit = CommitBuffer::new(input.as_bytes()).unwrap();
    assert_eq!(
        commit.data(),
        "tree 1234\nauthor announce <nonce @example.com>\nnonce AAAAAAAAAAAAAAAAAAAAAAAAAAAAAAAA\n\nmessage\n"
    );
}

#[test]
fn commit_that_starts_with_the_blank_line_gets_a_trailer() {
    let commit = CommitBuffer::new(b"\n\nmessage").unwrap();
    assert_eq!(commit.data(), "\nnonce AAAAAAAAAAAAAAAAAAAAAAAAAAAAAAAA\n\nmessage");
}

#[test]
fn text_beyond_ascii_is_kept() {
    let input = "tree 1234\nauthor Zo\u{eb} \u{1f600}\n\nh\u{e9}llo\n";
    let mut commit = CommitBuffer::new(input.as_bytes()).unwrap();
    commit.write_nonce(u128::MAX);
    assert_eq!(
        commit.data(),
        "tree 1234\nauthor Zo\u{eb} \u{1f600}\nnonce PPPPPPPPPPPPPPPPPPPPPPPPPPPPPPPP\n\nh\u{e9}llo\n"
    );
}

#[test]
fn commit_without_blank_line_is_malformed() {
    let made = CommitBuffer::new(b"tree 1234\nauthor nobody");
    assert!(matches!(made, Err(MineError::MalformedCommitEncoding)));
    assert!(matches!(CommitBuffer::new(b""), Err(MineError::MalformedCommitEncoding)));
}

#[test]
fn bytes_that_are_not_text_are_malformed() {
    let made = CommitBuffer::new(b"tree 1234\nauthor \xff\xfe\n\nmessage\n");
    assert!(matches!(made, Err(MineError::MalformedCommitEncoding)));
    let cut_short = CommitBuffer::new(b"tree 1234\n\nmessage \xe2\x82");
    assert!(matches!(cut_short, Err(MineError::MalformedCommitEncoding)));
}

#[test]
fn signature_without_continuation_line_is_malformed() {
    let made = CommitBuffer::new(b"tree 1\ngpgsig -----BEGIN PGP SIGNATURE-----\n\nmessage\n");
    assert!(matches!(made, Err(MineError::MalformedCommitEncoding)));
    let made = CommitBuffer::new(
        b"tree 1\ngpgsig -----BEGIN PGP SIGNATURE-----\niQ\n-----END PGP SIGNATURE-----\n\nm\n",
    );
    assert!(matches!(made, Err(MineError::MalformedCommitEncoding)));
}

#[test]
fn write_nonce_changes_only_the_window() {
    let mut commit = CommitBuffer::new(PLAIN.as_bytes()).unwrap();
    let before = commit.data().to_string();
    commit.write_nonce(0x1f);
    let after = commit.data().to_string();
    let at = before.find("nonce ").unwrap() + 6;
    assert_eq!(&after[..at], &before[..at]);
    assert_eq!(&after[at..at + 32], "AAAAAAAAAAAAAAAAAAAAAAAAAAAAAABP");
    assert_eq!(&after[at + 32..], &before[at + 32..]);
    assert_eq!(commit.nonce(), b"AAAAAAAAAAAAAAAAAAAAAAAAAAAAAABP");
}

#[test]
fn later_write_replaces_earlier_one() {
    let mut commit = CommitBuffer::new(PLAIN.as_bytes()).unwrap();
    commit.write_nonce(u128::MAX);
    commit.write_nonce(1);
    assert_eq!(commit.nonce(), b"AAAAAAAAAAAAAAAAAAAAAAAAAAAAAAAB");
    commit.write_nonce(0);
    assert_eq!(commit.data(), PLAIN_WITH_NONCE);
}

#[test]
fn clone_is_independent_of_its_origin() {
    let mut commit = CommitBuffer::new(PLAIN.as_bytes()).unwrap();
    let copy = commit.clone();
    commit.write_nonce(77);
    assert_eq!(copy.data(), PLAIN_WITH_NONCE);
    assert_ne!(commit.data(), copy.data());
}

#[test]
fn hash_input_is_header_and_record() {
    let commit = CommitBuffer::new(PLAIN.as_bytes()).unwrap();
    let mut expected = b"commit 212\0".to_vec();
    expected.extend_from_slice(PLAIN_WITH_NONCE.as_bytes());
    assert_eq!(commit.hash_input(), expected.as_slice());
    assert_eq!(digest(commit.hash_input()), object_digest(commit.bytes()));
}

#[test]
fn prefix_and_suffix_meet_at_the_nonce() {
    let mut commit = CommitBuffer::new(SIGNED.as_bytes()).unwrap();
    commit.write_nonce(0xabc);
    let mut joined = commit.fixed_prefix().to_vec();
    joined.extend_from_slice(commit.nonce_suffix());
    assert_eq!(joined.as_slice(), commit.hash_input());
    assert_eq!(&commit.nonce_suffix()[..32], commit.nonce());
    assert!(commit.fixed_prefix().ends_with(b"\nNonce: "));
}

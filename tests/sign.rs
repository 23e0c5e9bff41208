use git2_ext::hooks::{is_push_hook, post_rewrite_stdin, reference_transaction_stdin, Hooks};
use git2_ext::ops::cherry_pick_base;
use git2_ext::sign::{
    default_key_command, default_key_from_output, gpg_signed, key_command_args, literal_key,
    parse_sign_format, remove_cr_after, ssh_sign_failure, GpgSign, SignFormat, SshSign,
    SshSignFailure, UserSign, UserSignInner,
};
use git2_ext::store::ObjectId;

#[test]
fn sign_format_values() {
    assert_eq!(parse_sign_format(None), Some(SignFormat::OpenPgp));
    assert_eq!(parse_sign_format(Some(b"openpgp")), Some(SignFormat::OpenPgp));
    assert_eq!(parse_sign_format(Some(b"x509")), Some(SignFormat::X509));
    assert_eq!(parse_sign_format(Some(b"ssh")), Some(SignFormat::Ssh));
    assert_eq!(parse_sign_format(Some(b"pgp")), None);
    assert_eq!(parse_sign_format(Some(b"")), None);
}

#[test]
fn signer_for_each_format() {
    match UserSign::for_format(SignFormat::X509, "gpgsm".into(), "me".into()).0 {
        UserSignInner::Gpg(g) => {
            assert_eq!(g.program(), "gpgsm");
            assert_eq!(g.signing_key(), "me");
        }
        UserSignInner::Ssh(_) => panic!("x509 signs with gpg"),
    }
    match UserSign::for_format(SignFormat::Ssh, "ssh-keygen".into(), "k".into()).0 {
        UserSignInner::Ssh(s) => assert_eq!(s.program(), "ssh-keygen"),
        UserSignInner::Gpg(_) => panic!("ssh signs with ssh-keygen"),
    }
    let g = GpgSign::new("gpg".into(), "key".into());
    assert_eq!((g.program().as_str(), g.signing_key().as_str()), ("gpg", "key"));
    let s = SshSign::new("ssh-keygen".into(), "~/.ssh/id".into());
    assert_eq!(s.signing_key(), "~/.ssh/id");
}

#[test]
fn gpg_output_is_judged() {
    let status = b"[GNUPG:] KEY_CONSIDERED X\n[GNUPG:] SIG_CREATED D 1 8 00 1\n";
    assert!(gpg_signed(true, status));
    assert!(!gpg_signed(false, status));
    assert!(!gpg_signed(true, b"[GNUPG:] SIG_CREATED D\n"));
    assert!(!gpg_signed(true, b""));
}

#[test]
fn ssh_failure_kinds() {
    assert_eq!(ssh_sign_failure(b"usage: ssh-keygen [-q]"), SshSignFailure::Unsupported);
    assert_eq!(ssh_sign_failure(b"Load key failed"), SshSignFailure::Failed);
}

#[test]
fn carriage_returns_are_removed() {
    assert_eq!(remove_cr_after(b"a\r\nb\r\n"), b"a\nb\n".to_vec());
    assert_eq!(remove_cr_after(b"a\nb"), b"a\nb\n".to_vec());
    assert_eq!(remove_cr_after(b""), b"".to_vec());
    assert_eq!(remove_cr_after(b"\n\r\n"), b"\n\n".to_vec());
    assert_eq!(remove_cr_after(b"x\r"), b"x\r\n".to_vec());
}

#[test]
fn literal_keys() {
    assert_eq!(literal_key(b"key::ssh-ed25519 AAAA"), Some(b"ssh-ed25519 AAAA".to_vec()));
    assert_eq!(literal_key(b"ssh-rsa AAAA"), Some(b"ssh-rsa AAAA".to_vec()));
    assert_eq!(literal_key(b"/home/me/.ssh/id.pub"), None);
    assert_eq!(literal_key(b"key:"), None);
}

#[test]
fn default_key_is_the_first_line() {
    assert_eq!(
        default_key_from_output(b"ssh-ed25519 AAAA me\nssh-rsa BBBB\n"),
        Some(b"ssh-ed25519 AAAA me".to_vec())
    );
    assert_eq!(default_key_from_output(b"ssh-ed25519 AAAA me"), None);
    assert_eq!(default_key_from_output(b"not a key\nssh-rsa B\n"), None);
}

#[test]
fn key_commands_are_split() {
    assert_eq!(
        default_key_command("ssh-add -L"),
        Some(vec!["ssh-add".to_string(), "-L".to_string()])
    );
    assert_eq!(
        default_key_command("sh -c 'echo a b'"),
        Some(vec!["sh".to_string(), "-c".to_string(), "echo a b".to_string()])
    );
    assert_eq!(default_key_command("echo 'unterminated"), None);
    assert_eq!(default_key_command(""), None);
    assert_eq!(key_command_args(Some(Vec::new())), None);
    assert_eq!(key_command_args(None), None);
    assert_eq!(key_command_args(Some(vec!["a".into()])), Some(vec!["a".to_string()]));
}

#[test]
fn push_hooks() {
    for name in ["pre-receive", "update", "post-receive", "post-update", "push-to-checkout"] {
        assert!(is_push_hook(name.as_bytes()));
    }
    assert!(!is_push_hook(b"pre-commit"));
    assert!(!is_push_hook(b"post-rewrite"));
}

#[test]
fn hook_roots() {
    let hooks = Hooks::new(std::path::PathBuf::from("/repo/.git/hooks"));
    assert_eq!(hooks.root(), &std::path::PathBuf::from("/repo/.git/hooks"));
}

fn id(hex: &str) -> ObjectId {
    ObjectId { bytes: git2::Oid::from_str(hex).unwrap().as_bytes().try_into().unwrap() }
}

#[test]
fn hook_inputs() {
    let a = "0123456789abcdef0123456789abcdef01234567";
    let b = "fedcba9876543210fedcba9876543210fedcba98";
    assert_eq!(
        String::from_utf8(post_rewrite_stdin(&vec![(id(a), id(b)), (id(b), id(a))])).unwrap(),
        format!("{a} {b}\n{b} {a}\n")
    );
    assert_eq!(
        String::from_utf8(reference_transaction_stdin(&vec![(
            id(a),
            id(b),
            "refs/heads/main".to_string()
        )]))
        .unwrap(),
        format!("{a} {b} refs/heads/main\n")
    );
    assert!(post_rewrite_stdin(&Vec::new()).is_empty());
}

#[test]
fn cherry_pick_bases() {
    let c = ObjectId { bytes: [1; 20] };
    let h = ObjectId { bytes: [2; 20] };
    let p = ObjectId { bytes: [3; 20] };
    assert_eq!(cherry_pick_base(&vec![], &c, &h), c);
    assert_eq!(cherry_pick_base(&vec![p], &c, &h), p);
    assert_eq!(cherry_pick_base(&vec![p, h], &c, &h), h);
    assert_eq!(cherry_pick_base(&vec![p, c], &c, &h), p);
}

//! The decisions around signing commits: which signer the configuration asks
//! for, how the signers' output is judged, and how key settings are read.
//! Running the signing programs is left to the caller.
use vstd::prelude::*;

use crate::bytes::{
    bytes_equal, contains, contains_bytes, copy_from, has_prefix, starts_with,
};

verus! {

/// A signer that runs gpg (or gpgsm) with a signing key.
pub struct GpgSign {
    program: String,
    signing_key: String,
}

impl View for GpgSign {
    /// The program and the signing key.
    type V = (Seq<char>, Seq<char>);

    closed spec fn view(&self) -> (Seq<char>, Seq<char>) {
        (self.program@, self.signing_key@)
    }
}

impl GpgSign {
    pub fn new(program: String, signing_key: String) -> (r: Self)
        ensures
            r@ == (program@, signing_key@),
    {
        GpgSign { program, signing_key }
    }

    pub fn program(&self) -> (r: &String)
        ensures
            r@ == self@.0,
    {
        &self.program
    }

    pub fn signing_key(&self) -> (r: &String)
        ensures
            r@ == self@.1,
    {
        &self.signing_key
    }
}

/// A signer that runs ssh-keygen with a signing key (a key file, or a literal key).
pub struct SshSign {
    program: String,
    signing_key: String,
}

impl View for SshSign {
    /// The program and the signing key.
    type V = (Seq<char>, Seq<char>);

    closed spec fn view(&self) -> (Seq<char>, Seq<char>) {
        (self.program@, self.signing_key@)
    }
}

impl SshSign {
    pub fn new(program: String, signing_key: String) -> (r: Self)
        ensures
            r@ == (program@, signing_key@),
    {
        SshSign { program, signing_key }
    }

    pub fn program(&self) -> (r: &String)
        ensures
            r@ == self@.0,
    {
        &self.program
    }

    pub fn signing_key(&self) -> (r: &String)
        ensures
            r@ == self@.1,
    {
        &self.signing_key
    }
}

/// The signer that the user's configuration asks for.
pub enum UserSignInner {
    Gpg(GpgSign),
    Ssh(SshSign),
}

pub struct UserSign(pub UserSignInner);

/// The signature formats of `gpg.format`.
#[derive(Clone, Copy, Debug, PartialEq, Eq)]
pub enum SignFormat {
    OpenPgp,
    X509,
    Ssh,
}

pub open spec fn openpgp_name() -> Seq<u8> {
    seq![111u8, 112u8, 101u8, 110u8, 112u8, 103u8, 112u8]
}

pub open spec fn x509_name() -> Seq<u8> {
    seq![120u8, 53u8, 48u8, 57u8]
}

pub open spec fn ssh_name() -> Seq<u8> {
    seq![115u8, 115u8, 104u8]
}

/// The format named by a `gpg.format` value; an unset value means openpgp.
pub open spec fn sign_format_of(value: Option<Seq<u8>>) -> Option<SignFormat> {
    match value {
        None => Some(SignFormat::OpenPgp),
        Some(v) => if v == openpgp_name() {
            Some(SignFormat::OpenPgp)
        } else if v == x509_name() {
            Some(SignFormat::X509)
        } else if v == ssh_name() {
            Some(SignFormat::Ssh)
        } else {
            None
        },
    }
}

pub open spec fn opt_bytes(value: Option<&[u8]>) -> Option<Seq<u8>> {
    match value {
        Some(v) => Some(v@),
        None => None,
    }
}

/// The format that a `gpg.format` value names, or `None` for a value that
/// names no format.
pub fn parse_sign_format(value: Option<&[u8]>) -> (r: Option<SignFormat>)
    ensures
        r == sign_format_of(opt_bytes(value)),
{
    match value {
        None => Some(SignFormat::OpenPgp),
        Some(v) => {
            let openpgp: Vec<u8> = vec![111u8, 112u8, 101u8, 110u8, 112u8, 103u8, 112u8];
            let x509: Vec<u8> = vec![120u8, 53u8, 48u8, 57u8];
            let ssh: Vec<u8> = vec![115u8, 115u8, 104u8];
            assert(openpgp@ == openpgp_name());
            assert(x509@ == x509_name());
            assert(ssh@ == ssh_name());
            if bytes_equal(v, openpgp.as_slice()) {
                Some(SignFormat::OpenPgp)
            } else if bytes_equal(v, x509.as_slice()) {
                Some(SignFormat::X509)
            } else if bytes_equal(v, ssh.as_slice()) {
                Some(SignFormat::Ssh)
            } else {
                None
            }
        },
    }
}

/// `u` is the signer for `format` with that program and key: ssh-keygen for
/// ssh, gpg for the others.
pub open spec fn signer_for(u: UserSign, format: SignFormat, program: Seq<char>, key: Seq<char>) -> bool {
    match u.0 {
        UserSignInner::Ssh(s) => format == SignFormat::Ssh && s@ == (program, key),
        UserSignInner::Gpg(g) => format != SignFormat::Ssh && g@ == (program, key),
    }
}

impl UserSign {
    /// The signer for a format: gpg for openpgp and x509, ssh-keygen for ssh.
    pub fn for_format(format: SignFormat, program: String, signing_key: String) -> (r: Self)
        ensures
            signer_for(r, format, program@, signing_key@),
    {
        match format {
            SignFormat::Ssh => UserSign(UserSignInner::Ssh(SshSign::new(program, signing_key))),
            _ => UserSign(UserSignInner::Gpg(GpgSign::new(program, signing_key))),
        }
    }
}

/// The status line with which gpg reports a created signature.
pub open spec fn sig_created_marker() -> Seq<u8> {
    seq![
        10u8, 91u8, 71u8, 78u8, 85u8, 80u8, 71u8, 58u8, 93u8, 32u8, 83u8, 73u8, 71u8, 95u8,
        67u8, 82u8, 69u8, 65u8, 84u8, 69u8, 68u8, 32u8,
    ]
}

/// Whether gpg signed: it exited successfully and its status output (on
/// stderr) reports a created signature.
pub fn gpg_signed(success: bool, stderr: &[u8]) -> (r: bool)
    ensures
        r == (success && contains_bytes(stderr@, sig_created_marker())),
{
    if !success {
        return false;
    }
    let marker: Vec<u8> = vec![
        10u8, 91u8, 71u8, 78u8, 85u8, 80u8, 71u8, 58u8, 93u8, 32u8, 83u8, 73u8, 71u8, 95u8,
        67u8, 82u8, 69u8, 65u8, 84u8, 69u8, 68u8, 32u8,
    ];
    assert(marker@ == sig_created_marker());
    contains(stderr, marker.as_slice())
}

/// The word with which an ssh-keygen that cannot sign prints its usage.
pub open spec fn usage_marker() -> Seq<u8> {
    seq![117u8, 115u8, 97u8, 103u8, 101u8, 58u8]
}

/// Why ssh-keygen failed to sign.
#[derive(Clone, Copy, Debug, PartialEq, Eq)]
pub enum SshSignFailure {
    /// ssh-keygen printed its usage: it has no `-Y sign` (before OpenSSH 8.2p1).
    Unsupported,
    /// Any other failure.
    Failed,
}

pub fn ssh_sign_failure(stderr: &[u8]) -> (r: SshSignFailure)
    ensures
        (r == SshSignFailure::Unsupported) == contains_bytes(stderr@, usage_marker()),
{
    let usage: Vec<u8> = vec![117u8, 115u8, 97u8, 103u8, 101u8, 58u8];
    assert(usage@ == usage_marker());
    if contains(stderr, usage.as_slice()) {
        SshSignFailure::Unsupported
    } else {
        SshSignFailure::Failed
    }
}

/// `line` without one '\r' at its end.
pub open spec fn strip_cr(line: Seq<u8>) -> Seq<u8> {
    if line.len() > 0 && line.last() == 13u8 {
        line.drop_last()
    } else {
        line
    }
}

/// The rest of `s`, after a current line `line`, with each line ended by a
/// single '\n': lines end at '\n' (dropping a '\r' before it), and a last
/// line without '\n' counts unless it is empty.
pub open spec fn lines_ended(s: Seq<u8>, line: Seq<u8>) -> Seq<u8>
    decreases s.len(),
{
    if s.len() == 0 {
        if line.len() == 0 {
            Seq::empty()
        } else {
            line.push(10u8)
        }
    } else if s[0] == 10u8 {
        strip_cr(line).push(10u8) + lines_ended(s.drop_first(), Seq::empty())
    } else {
        lines_ended(s.drop_first(), line.push(s[0]))
    }
}

/// The text with every line ended by '\n' alone, as its lines are read by
/// `str::lines`.
pub fn remove_cr_after(sig: &[u8]) -> (r: Vec<u8>)
    ensures
        r@ == lines_ended(sig@, Seq::empty()),
{
    let mut out: Vec<u8> = Vec::new();
    let mut line: Vec<u8> = Vec::new();
    let mut i: usize = 0;
    assert(sig@.subrange(0, sig@.len() as int) =~= sig@);
    assert(line@ =~= Seq::<u8>::empty());
    assert(out@ + lines_ended(sig@, Seq::empty()) =~= lines_ended(sig@, Seq::empty()));
    while i < sig.len()
        invariant
            i <= sig@.len(),
            out@ + lines_ended(sig@.subrange(i as int, sig@.len() as int), line@) == lines_ended(
                sig@,
                Seq::empty(),
            ),
        decreases sig@.len() - i,
    {
        let ghost rest = sig@.subrange(i as int, sig@.len() as int);
        assert(rest.drop_first() =~= sig@.subrange(i + 1int, sig@.len() as int));
        let b = sig[i];
        if b == 10u8 {
            let ghost before = out@;
            let ghost stripped = strip_cr(line@);
            if line.len() > 0 && line[line.len() - 1] == 13u8 {
                line.pop();
            }
            assert(line@ == stripped);
            let mut j: usize = 0;
            while j < line.len()
                invariant
                    j <= line@.len(),
                    out@ == before + line@.subrange(0, j as int),
                decreases line@.len() - j,
            {
                out.push(line[j]);
                j = j + 1;
                assert(out@ =~= before + line@.subrange(0, j as int));
            }
            out.push(10u8);
            assert(out@ =~= before + stripped.push(10u8));
            line = Vec::new();
            assert(line@ =~= Seq::<u8>::empty());
        } else {
            line.push(b);
        }
        i = i + 1;
    }
    let ghost before = out@;
    assert(sig@.subrange(sig@.len() as int, sig@.len() as int) =~= Seq::<u8>::empty());
    if line.len() > 0 {
        let mut j: usize = 0;
        while j < line.len()
            invariant
                j <= line@.len(),
                out@ == before + line@.subrange(0, j as int),
            decreases line@.len() - j,
        {
            out.push(line[j]);
            j = j + 1;
            assert(out@ =~= before + line@.subrange(0, j as int));
        }
        out.push(10u8);
        assert(out@ =~= before + line@.push(10u8));
    } else {
        assert(out@ =~= before + Seq::<u8>::empty());
    }
    out
}

pub open spec fn key_prefix() -> Seq<u8> {
    seq![107u8, 101u8, 121u8, 58u8, 58u8]
}

pub open spec fn ssh_key_prefix() -> Seq<u8> {
    seq![115u8, 115u8, 104u8, 45u8]
}

/// The literal key that a signing-key setting holds: what follows `key::`,
/// or the whole setting where it starts with `ssh-`; `None` for a key file.
pub open spec fn literal_key_of(k: Seq<u8>) -> Option<Seq<u8>> {
    if starts_with(k, key_prefix()) {
        Some(k.subrange(5, k.len() as int))
    } else if starts_with(k, ssh_key_prefix()) {
        Some(k)
    } else {
        None
    }
}

pub fn literal_key(signing_key: &[u8]) -> (r: Option<Vec<u8>>)
    ensures
        match r {
            Some(v) => literal_key_of(signing_key@) == Some(v@),
            None => literal_key_of(signing_key@) is None,
        },
{
    let key: Vec<u8> = vec![107u8, 101u8, 121u8, 58u8, 58u8];
    let ssh: Vec<u8> = vec![115u8, 115u8, 104u8, 45u8];
    assert(key@ == key_prefix());
    assert(ssh@ == ssh_key_prefix());
    if has_prefix(signing_key, key.as_slice()) {
        Some(copy_from(signing_key, 5))
    } else if has_prefix(signing_key, ssh.as_slice()) {
        let r = copy_from(signing_key, 0);
        assert(signing_key@.subrange(0, signing_key@.len() as int) =~= signing_key@);
        Some(r)
    } else {
        None
    }
}

/// The key that the output of `gpg.ssh.defaultKeyCommand` offers: its first
/// line, where that line ends with '\n' and holds a literal key.
pub open spec fn default_key_of(out: Seq<u8>) -> Option<Seq<u8>> {
    if exists|i: int| 0 <= i < out.len() && out[i] == 10u8 {
        let i = choose|i: int|
            0 <= i < out.len() && out[i] == 10u8 && forall|j: int| 0 <= j < i ==> out[j] != 10u8;
        let line = out.subrange(0, i);
        if literal_key_of(line) is Some {
            Some(line)
        } else {
            None
        }
    } else {
        None
    }
}

pub fn default_key_from_output(keys: &[u8]) -> (r: Option<Vec<u8>>)
    ensures
        match r {
            Some(v) => default_key_of(keys@) == Some(v@),
            None => default_key_of(keys@) is None,
        },
{
    let mut i: usize = 0;
    while i < keys.len()
        invariant
            i <= keys@.len(),
            forall|j: int| 0 <= j < i ==> keys@[j] != 10u8,
        decreases keys@.len() - i,
    {
        if keys[i] == 10u8 {
            let mut line: Vec<u8> = Vec::new();
            let mut j: usize = 0;
            while j < i
                invariant
                    j <= i < keys@.len(),
                    line@ == keys@.subrange(0, j as int),
                decreases i - j,
            {
                line.push(keys[j]);
                j = j + 1;
                assert(line@ =~= keys@.subrange(0, j as int));
            }
            proof {
                let k = choose|k: int|
                    0 <= k < keys@.len() && keys@[k] == 10u8 && forall|j: int|
                        0 <= j < k ==> keys@[j] != 10u8;
                if k < i {
                    assert(keys@[k] != 10u8);
                }
                if k > i {
                    assert(keys@[i as int] != 10u8);
                }
            }
            if literal_key(line.as_slice()).is_some() {
                return Some(line);
            } else {
                return None;
            }
        }
        i = i + 1;
    }
    None
}

/// The words of a command line as a POSIX shell splits them, or `None` where
/// its quoting is malformed.
pub uninterp spec fn shell_words(s: Seq<char>) -> Option<Seq<Seq<char>>>;

pub open spec fn words_view(w: Option<Vec<String>>) -> Option<Seq<Seq<char>>> {
    match w {
        Some(v) => Some(v@.map_values(|s: String| s@)),
        None => None,
    }
}

/// Relies on shlex::split: the words of the command line, or `None` where it
/// is malformed; the result depends on the text alone.
#[verifier::external_body]
fn split_words(s: &str) -> (r: Option<Vec<String>>)
    ensures
        words_view(r) == shell_words(s@),
{
    shlex::split(s)
}

/// The program and arguments of a key command, given its words: `None` where
/// the command was malformed or empty.
pub fn key_command_args(words: Option<Vec<String>>) -> (r: Option<Vec<String>>)
    ensures
        words_view(r) == match words_view(words) {
            Some(w) => if w.len() > 0 {
                Some(w)
            } else {
                None
            },
            None => None,
        },
{
    match words {
        Some(w) => {
            if w.len() > 0 {
                Some(w)
            } else {
                None
            }
        },
        None => None,
    }
}

/// The program and arguments of the command in `gpg.ssh.defaultKeyCommand`,
/// or `None` where it is malformed or empty.
pub fn default_key_command(cmd: &str) -> (r: Option<Vec<String>>)
    ensures
        words_view(r) == match shell_words(cmd@) {
            Some(w) => if w.len() > 0 {
                Some(w)
            } else {
                None
            },
            None => None,
        },
{
    key_command_args(split_words(cmd))
}

} // verus!

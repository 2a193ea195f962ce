//! Findings and their fingerprints.

use crate::text::{
    decimal, lemma_decimal_injective, push_decimal, push_str, trim_string, trimmed,
};
use sha1::{Digest, Sha1};
use vstd::prelude::*;
use vstd::string::*;
use vstd::utf8::{decode_utf8, encode_utf8, encode_utf8_decode_utf8};

verus! {

/// How serious a finding is.
#[derive(Debug, Clone, Copy, PartialEq, Eq, Hash, Structural)]
pub enum Severity {
    Low,
    Medium,
    High,
    Critical,
}

/// One finding: the rule that fired, where it fired, and the line it fired on.
#[derive(Debug)]
pub struct Issue {
    pub rule_id: String,
    pub description: String,
    pub file_path: String,
    pub line_number: usize,
    pub code: String,
    pub severity: Severity,
    pub confidence: String,
    pub remediation: String,
}

/// The mathematical content of an [`Issue`].
pub struct IssueView {
    pub rule_id: Seq<char>,
    pub description: Seq<char>,
    pub file_path: Seq<char>,
    pub line_number: nat,
    pub code: Seq<char>,
    pub severity: Severity,
    pub confidence: Seq<char>,
    pub remediation: Seq<char>,
}

impl View for Issue {
    type V = IssueView;

    open spec fn view(&self) -> IssueView {
        IssueView {
            rule_id: self.rule_id@,
            description: self.description@,
            file_path: self.file_path@,
            line_number: self.line_number as nat,
            code: self.code@,
            severity: self.severity,
            confidence: self.confidence@,
            remediation: self.remediation@,
        }
    }
}

/// The views of a sequence of issues, in order.
pub open spec fn issue_views(issues: Seq<Issue>) -> Seq<IssueView> {
    issues.map_values(|i: Issue| i@)
}

/// The lower-case hexadecimal SHA-1 digest of a byte string.
pub uninterp spec fn sha1_hex(data: Seq<u8>) -> Seq<char>;

/// Whether `c` is a digit or a letter from `a` to `f`.
pub open spec fn is_lower_hex(c: char) -> bool {
    let n = c as u32;
    0x30 <= n <= 0x39 || 0x61 <= n <= 0x66
}

/// Whether a text has the form of a digest: forty lower-case hexadecimal
/// digits.
pub open spec fn is_hex_digest(s: Seq<char>) -> bool {
    s.len() == 40 && forall|i: int| 0 <= i < s.len() ==> is_lower_hex(#[trigger] s[i])
}

/// `Sha1::digest` followed by lower-case hexadecimal formatting of the
/// digest: the text depends on the bytes alone, and it holds two lower-case
/// hexadecimal digits for each of the twenty bytes of the digest.
#[verifier::external_body]
fn sha1_hex_digest(data: &[u8]) -> (r: String)
    ensures
        r@ == sha1_hex(data@),
        is_hex_digest(r@),
{
    format!("{:x}", Sha1::digest(data))
}

/// The text that identifies a finding: rule, file, line number and trimmed
/// snippet, joined by `|`.
pub open spec fn fingerprint_key(
    rule_id: Seq<char>,
    file_path: Seq<char>,
    line_number: nat,
    code: Seq<char>,
) -> Seq<char> {
    rule_id + seq!['|'] + file_path + seq!['|'] + decimal(line_number) + seq!['|'] + trimmed(code)
}

/// The fingerprint of a finding: the SHA-1 digest, in lower-case hexadecimal,
/// of the UTF-8 bytes of its key.
pub open spec fn fingerprint_of(i: IssueView) -> Seq<char> {
    sha1_hex(encode_utf8(fingerprint_key(i.rule_id, i.file_path, i.line_number, i.code)))
}

/// The fingerprints of a sequence of findings, in order.
pub open spec fn fingerprints_of(issues: Seq<IssueView>) -> Seq<Seq<char>> {
    issues.map_values(|i: IssueView| fingerprint_of(i))
}

/// Findings that agree on rule, file, line number and trimmed snippet have
/// the same fingerprint, whatever their other fields hold.
pub proof fn lemma_fingerprint_stable(a: IssueView, b: IssueView)
    requires
        a.rule_id == b.rule_id,
        a.file_path == b.file_path,
        a.line_number == b.line_number,
        trimmed(a.code) == trimmed(b.code),
    ensures
        fingerprint_of(a) == fingerprint_of(b),
{
}

/// The key of a finding.
pub open spec fn key_of(i: IssueView) -> Seq<char> {
    fingerprint_key(i.rule_id, i.file_path, i.line_number, i.code)
}

/// Whether two byte strings are different and have the same SHA-1 digest.
pub open spec fn sha1_collision(x: Seq<u8>, y: Seq<u8>) -> bool {
    x != y && sha1_hex(x) == sha1_hex(y)
}

/// Whether two findings differ in exactly one of the parts of their keys:
/// the rule, the file, the line number, or the trimmed snippet.
pub open spec fn differ_in_one_part(a: IssueView, b: IssueView) -> bool {
    let rule = a.rule_id != b.rule_id;
    let file = a.file_path != b.file_path;
    let line = a.line_number != b.line_number;
    let code = trimmed(a.code) != trimmed(b.code);
    ||| (rule && !file && !line && !code)
    ||| (!rule && file && !line && !code)
    ||| (!rule && !file && line && !code)
    ||| (!rule && !file && !line && code)
}

/// A text between the same texts is determined by the whole.
proof fn lemma_middle_determined(
    before: Seq<char>,
    x: Seq<char>,
    y: Seq<char>,
    after: Seq<char>,
)
    requires
        before + x + after == before + y + after,
    ensures
        x == y,
{
    let whole = before + x + after;
    let other = before + y + after;
    assert(whole.len() == before.len() + x.len() + after.len());
    assert(other.len() == before.len() + y.len() + after.len());
    assert(x.len() == y.len());
    assert(x =~= whole.subrange(before.len() as int, (before.len() + x.len()) as int));
    assert(y =~= other.subrange(before.len() as int, (before.len() + y.len()) as int));
}

/// A change of one part of the key changes the key, and with it the
/// fingerprint, unless the two keys have the same SHA-1 digest.
pub proof fn lemma_fingerprint_separates(a: IssueView, b: IssueView)
    requires
        differ_in_one_part(a, b),
    ensures
        key_of(a) != key_of(b),
        fingerprint_of(a) != fingerprint_of(b) || sha1_collision(
            encode_utf8(key_of(a)),
            encode_utf8(key_of(b)),
        ),
{
    let bar = seq!['|'];
    let empty = Seq::<char>::empty();
    if key_of(a) == key_of(b) {
        if a.rule_id != b.rule_id {
            let rest = bar + a.file_path + bar + decimal(a.line_number) + bar + trimmed(a.code);
            assert(key_of(a) =~= empty + a.rule_id + rest);
            assert(key_of(b) =~= empty + b.rule_id + rest);
            lemma_middle_determined(empty, a.rule_id, b.rule_id, rest);
        } else if a.file_path != b.file_path {
            let front = a.rule_id + bar;
            let rest = bar + decimal(a.line_number) + bar + trimmed(a.code);
            assert(key_of(a) =~= front + a.file_path + rest);
            assert(key_of(b) =~= front + b.file_path + rest);
            lemma_middle_determined(front, a.file_path, b.file_path, rest);
        } else if a.line_number != b.line_number {
            let front = a.rule_id + bar + a.file_path + bar;
            let rest = bar + trimmed(a.code);
            assert(key_of(a) =~= front + decimal(a.line_number) + rest);
            assert(key_of(b) =~= front + decimal(b.line_number) + rest);
            lemma_middle_determined(front, decimal(a.line_number), decimal(b.line_number), rest);
            lemma_decimal_injective(a.line_number, b.line_number);
        } else {
            let front = a.rule_id + bar + a.file_path + bar + decimal(a.line_number) + bar;
            assert(key_of(a) =~= front + trimmed(a.code) + empty);
            assert(key_of(b) =~= front + trimmed(b.code) + empty);
            lemma_middle_determined(front, trimmed(a.code), trimmed(b.code), empty);
        }
    }
    encode_utf8_decode_utf8(key_of(a));
    encode_utf8_decode_utf8(key_of(b));
    assert(encode_utf8(key_of(a)) != encode_utf8(key_of(b))) by {
        if encode_utf8(key_of(a)) == encode_utf8(key_of(b)) {
            assert(decode_utf8(encode_utf8(key_of(a))) == decode_utf8(encode_utf8(key_of(b))));
        }
    }
}

impl Clone for Issue {
    fn clone(&self) -> (r: Self)
        ensures
            r@ == self@,
    {
        Issue {
            rule_id: self.rule_id.clone(),
            description: self.description.clone(),
            file_path: self.file_path.clone(),
            line_number: self.line_number,
            code: self.code.clone(),
            severity: self.severity,
            confidence: self.confidence.clone(),
            remediation: self.remediation.clone(),
        }
    }
}

impl Issue {
    /// A finding with the given fields; the snippet is stored without its
    /// leading and trailing white space.
    pub fn new(
        rule_id: String,
        description: String,
        file_path: String,
        line_number: usize,
        code: String,
        severity: Severity,
        confidence: String,
        remediation: String,
    ) -> (r: Self)
        ensures
            r@ == (IssueView {
                rule_id: rule_id@,
                description: description@,
                file_path: file_path@,
                line_number: line_number as nat,
                code: trimmed(code@),
                severity: severity,
                confidence: confidence@,
                remediation: remediation@,
            }),
    {
        Issue {
            rule_id,
            description,
            file_path,
            line_number,
            code: trim_string(code.as_str()),
            severity,
            confidence,
            remediation,
        }
    }

    /// The stable fingerprint of this finding.
    pub fn get_fingerprint(&self) -> (r: String)
        ensures
            r@ == fingerprint_of(self@),
            is_hex_digest(r@),
    {
        let mut key = String::new();
        push_str(&mut key, self.rule_id.as_str());
        key.push('|');
        push_str(&mut key, self.file_path.as_str());
        key.push('|');
        push_decimal(&mut key, self.line_number);
        key.push('|');
        let code = trim_string(self.code.as_str());
        push_str(&mut key, code.as_str());
        assert(key@ =~= fingerprint_key(
            self@.rule_id,
            self@.file_path,
            self@.line_number,
            self@.code,
        ));
        sha1_hex_digest(key.as_str().as_bytes())
    }
}

} // verus!

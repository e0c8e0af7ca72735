//! Digests of integers and the trailing-zero predicate on them, and the
//! evaluation of one chunk of inputs.
use regex::Regex;
use std::ops::Range;
use vstd::prelude::*;

verus! {

#[verifier::external_type_specification]
#[verifier::external_body]
pub struct ExRegex(Regex);

#[verifier::external_type_specification]
#[verifier::external_body]
pub struct ExRegexError(regex::Error);

/// The lowercase hexadecimal SHA-256 digest of a byte string.
pub uninterp spec fn sha256_hex(bytes: Seq<u8>) -> Seq<char>;

/// The ASCII decimal form of `n`: no sign and no leading zeros.
pub open spec fn decimal_ascii(n: nat) -> Seq<u8>
    decreases n,
{
    if n < 10 {
        seq![(48 + n) as u8]
    } else {
        decimal_ascii(n / 10).push((48 + n % 10) as u8)
    }
}

/// The digest that the search computes for the input `i`: that of its
/// decimal text.
pub open spec fn digest_of(i: nat) -> Seq<char> {
    sha256_hex(decimal_ascii(i))
}

/// `text` ends with (at least) `n` `'0'` characters.
pub open spec fn ends_with_zeros(text: Seq<char>, n: nat) -> bool {
    &&& n <= text.len()
    &&& forall|k: int| text.len() - n <= k < text.len() ==> text[k] == '0'
}

/// The model of a match: the input and the text of its digest.
pub type CaseModel = (nat, Seq<char>);

/// The matches among the inputs `start..end`, in increasing order of input.
pub open spec fn matching_cases(start: int, end: int, zeros: nat) -> Seq<CaseModel>
    decreases end - start,
{
    if end <= start {
        seq![]
    } else {
        let before = matching_cases(start, end - 1, zeros);
        let i = (end - 1) as nat;
        if ends_with_zeros(digest_of(i), zeros) {
            before.push((i, digest_of(i)))
        } else {
            before
        }
    }
}

/// An input whose digest satisfied the predicate, with that digest.
#[derive(Clone, Debug)]
pub struct HashCase {
    pub input: usize,
    pub digest: String,
}

impl View for HashCase {
    type V = CaseModel;

    open spec fn view(&self) -> CaseModel {
        (self.input as nat, self.digest@)
    }
}

/// The models of a sequence of matches.
pub open spec fn cases_view(cases: Seq<HashCase>) -> Seq<CaseModel> {
    cases.map_values(|c: HashCase| c@)
}

/// Why a predicate could not be built.
#[derive(Debug, PartialEq, Eq, Structural)]
pub enum MatcherError {
    InvalidPattern,
}

/// The predicate "the digest ends with `zeros` zero characters", held as
/// the regular expression `0{zeros}$`. Only `compile` builds one, so the
/// expression always belongs to `zeros`.
#[derive(Debug)]
pub struct DigestMatcher {
    zeros: usize,
    regex: Regex,
}

/// The decimal digits of `n` as ASCII bytes.
pub fn decimal_bytes(n: usize) -> (r: Vec<u8>)
    ensures
        r@ == decimal_ascii(n as nat),
    decreases n,
{
    if n < 10 {
        let mut r: Vec<u8> = Vec::new();
        r.push(48 + n as u8);
        r
    } else {
        let mut r = decimal_bytes(n / 10);
        r.push(48 + (n % 10) as u8);
        r
    }
}

/// Relies on sha256::digest, which for bytes returns the lowercase hex
/// encoding of their SHA-256 digest: a function of the bytes alone.
#[verifier::external_body]
fn sha256_digest(bytes: Vec<u8>) -> (r: String)
    ensures
        r@ == sha256_hex(bytes@),
{
    sha256::digest(bytes)
}

/// The digest of the decimal text of `input`.
pub fn digest_input(input: usize) -> (r: String)
    ensures
        r@ == digest_of(input as nat),
{
    sha256_digest(decimal_bytes(input))
}

impl DigestMatcher {
    /// The number of trailing zeros that this predicate asks for.
    pub closed spec fn zeros(&self) -> nat {
        self.zeros as nat
    }

    /// Relies on regex::Regex::new, which compiles the pattern `0{zeros}$`
    /// (exactly `zeros` repetitions of `0`, then the end of the haystack) or
    /// returns its error. It fails only on an invalid pattern or one over the
    /// size limit; at most 32 repetitions of a one-byte literal is neither.
    #[verifier::external_body]
    fn compile(zeros: usize) -> (r: Result<DigestMatcher, regex::Error>)
        ensures
            r matches Ok(m) ==> m.zeros == zeros,
            zeros <= 32 ==> r is Ok,
    {
        match Regex::new(&format!("0{{{}}}$", zeros)) {
            Ok(regex) => Ok(DigestMatcher { zeros, regex }),
            Err(e) => Err(e),
        }
    }

    /// Relies on regex::Regex::is_match: the unanchored search for `0{zeros}$`
    /// succeeds exactly when the haystack ends with `zeros` zero characters.
    #[verifier::external_body]
    fn regex_is_match(&self, digest: &str) -> (r: bool)
        ensures
            r == ends_with_zeros(digest@, self.zeros as nat),
    {
        self.regex.is_match(digest)
    }

    /// Builds the predicate "ends with `zeros` zero characters"; it is
    /// always built for the supported counts, up to 32.
    pub fn new(zeros: usize) -> (r: Result<DigestMatcher, MatcherError>)
        ensures
            r matches Ok(m) ==> m.zeros() == zeros,
            zeros <= 32 ==> r is Ok,
    {
        match DigestMatcher::compile(zeros) {
            Ok(m) => Ok(m),
            Err(_) => Err(MatcherError::InvalidPattern),
        }
    }

    /// Whether `digest` satisfies the predicate.
    pub fn is_match(&self, digest: &str) -> (r: bool)
        ensures
            r == ends_with_zeros(digest@, self.zeros()),
    {
        self.regex_is_match(digest)
    }

    /// The match record for `input` if its digest satisfies the predicate.
    pub fn check_case(&self, input: usize, digest: String) -> (r: Option<HashCase>)
        ensures
            ends_with_zeros(digest@, self.zeros()) ==> r == Some(HashCase { input, digest }),
            !ends_with_zeros(digest@, self.zeros()) ==> r is None,
    {
        if self.regex_is_match(digest.as_str()) {
            Some(HashCase { input, digest })
        } else {
            None
        }
    }
}

/// Evaluates one chunk: every input of `inputs`, in increasing order, whose
/// digest satisfies the predicate, paired with that digest.
pub fn find_cases_by_digest_regex(inputs: Range<usize>, needed_digest: &DigestMatcher) -> (r: Vec<HashCase>)
    ensures
        cases_view(r@) == matching_cases(inputs.start as int, inputs.end as int, needed_digest.zeros()),
{
    let mut results: Vec<HashCase> = Vec::new();
    if inputs.end <= inputs.start {
        assert(cases_view(results@) =~= matching_cases(inputs.start as int, inputs.end as int, needed_digest.zeros()));
        return results;
    }
    let mut i: usize = inputs.start;
    while i < inputs.end
        invariant
            inputs.start <= i <= inputs.end,
            cases_view(results@) == matching_cases(inputs.start as int, i as int, needed_digest.zeros()),
        decreases inputs.end - i,
    {
        let digest = digest_input(i);
        let found = needed_digest.check_case(i, digest);
        proof {
            assert(matching_cases(inputs.start as int, i as int, needed_digest.zeros()) =~= matching_cases(inputs.start as int, (i + 1) as int - 1, needed_digest.zeros()));
        }
        match found {
            Some(case) => {
                results.push(case);
                assert(cases_view(results@) =~= matching_cases(inputs.start as int, (i + 1) as int, needed_digest.zeros()));
            },
            None => {
                assert(cases_view(results@) =~= matching_cases(inputs.start as int, (i + 1) as int, needed_digest.zeros()));
            },
        }
        i = i + 1;
    }
    results
}

} // verus!

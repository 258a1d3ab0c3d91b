//! Errors of the wire layer and of both protocols.

use crate::encryption::proofs::DecryptionProof;
use crate::group::Point;
use crate::scalar::Scalar;
use vstd::prelude::*;
use vstd::string::StringExecFns;

verus! {

/// Why bytes were refused.
#[derive(Clone, Copy, Debug, PartialEq, Eq, Structural)]
pub enum WireError {
    NotOnCurve,
    NonCanonicalScalar,
    MalformedMessage,
    BadSignature,
}

/// Why the one-round output phase failed.
#[derive(Clone)]
pub enum DkgOutputError {
    InvalidParameters,
    InvalidBatchProof { dealer_idx: usize },
    InvalidWire,
    MissingCiphertext { dealer_idx: usize, receiver_idx: usize },
    InvalidEncryptionProof { dealer_idx: usize },
    InvalidDecryptionOpening {
        dealer_idx: usize,
        receiver_idx: usize,
        s_ji: Scalar,
        r_ji: Scalar,
        pi_i: Box<(Point, DecryptionProof)>,
    },
    InvalidSignature { dealer_idx: usize },
}

/// Why a step of the two-round protocol failed.
#[derive(Clone)]
pub enum TwoRoundDkgError {
    InvalidParameters,
    InvalidSignature { dealer_idx: usize },
    MissingCiphertext { dealer_idx: usize, receiver_idx: usize },
    InvalidDecryptionOpening {
        dealer_idx: usize,
        receiver_idx: usize,
        s_ji: Scalar,
        sprime_ji: Scalar,
        pi_i: Box<(Point, DecryptionProof)>,
    },
    InvalidEncryptionProof { dealer_idx: usize },
    InvalidDecomProof { dealer_idx: usize },
    InvalidPkProof { dealer_idx: usize },
    InvalidComEqProof { dealer_idx: usize },
    InvalidPedVssLength { dealer_idx: usize },
    MissingRound2Message { dealer_idx: usize },
}


/// The decimal digit `d` as a character.
pub open spec fn digit_char(d: int) -> char {
    (48 + d) as char
}

/// The decimal digits of `n`, most significant first.
pub open spec fn decimal(n: nat) -> Seq<char>
    decreases n,
{
    if n < 10 {
        seq![digit_char(n as int)]
    } else {
        decimal(n / 10) + seq![digit_char((n % 10) as int)]
    }
}

fn digit_str(d: usize) -> (r: &'static str)
    requires
        d < 10,
    ensures
        r@ == seq![digit_char(d as int)],
{
    match d {
        0 => {
            proof {
                reveal_strlit("0");
            }
            "0"
        },
        1 => {
            proof {
                reveal_strlit("1");
            }
            "1"
        },
        2 => {
            proof {
                reveal_strlit("2");
            }
            "2"
        },
        3 => {
            proof {
                reveal_strlit("3");
            }
            "3"
        },
        4 => {
            proof {
                reveal_strlit("4");
            }
            "4"
        },
        5 => {
            proof {
                reveal_strlit("5");
            }
            "5"
        },
        6 => {
            proof {
                reveal_strlit("6");
            }
            "6"
        },
        7 => {
            proof {
                reveal_strlit("7");
            }
            "7"
        },
        8 => {
            proof {
                reveal_strlit("8");
            }
            "8"
        },
        _ => {
            proof {
                reveal_strlit("9");
            }
            "9"
        },
    }
}

/// Appends the decimal digits of `n`.
fn push_decimal(s: &mut String, n: usize)
    ensures
        final(s)@ == old(s)@ + decimal(n as nat),
    decreases n,
{
    if n >= 10 {
        push_decimal(s, n / 10);
        s.append(digit_str(n % 10));
        proof {
            assert(decimal(n as nat) == decimal((n / 10) as nat) + seq![digit_char((n % 10) as int)]);
            assert(final(s)@ =~= old(s)@ + decimal(n as nat));
        }
    } else {
        s.append(digit_str(n));
    }
}

/// `a`, the decimal digits of `d`, then `b`.
fn text1(a: &str, d: usize, b: &str) -> (r: String)
    ensures
        r@ == a@ + decimal(d as nat) + b@,
{
    let mut s = String::new();
    s.append(a);
    push_decimal(&mut s, d);
    s.append(b);
    proof {
        assert(s@ =~= a@ + decimal(d as nat) + b@);
    }
    s
}

/// `a`, the digits of `d1`, `b`, the digits of `d2`, then `c`.
fn text2(a: &str, d1: usize, b: &str, d2: usize, c: &str) -> (r: String)
    ensures
        r@ == a@ + decimal(d1 as nat) + b@ + decimal(d2 as nat) + c@,
{
    let mut s = text1(a, d1, b);
    push_decimal(&mut s, d2);
    s.append(c);
    proof {
        assert(s@ =~= a@ + decimal(d1 as nat) + b@ + decimal(d2 as nat) + c@);
    }
    s
}

/// The message that describes a wire error.
pub open spec fn wire_error_text(e: WireError) -> Seq<char> {
    match e {
        WireError::NotOnCurve => "not a canonical Ristretto point"@,
        WireError::NonCanonicalScalar => "scalar is not canonically reduced"@,
        WireError::MalformedMessage => "wire message is malformed"@,
        WireError::BadSignature => "wire message signature does not verify"@,
    }
}

impl WireError {
    /// The message that describes the error.
    pub fn to_string(&self) -> (r: String)
        ensures
            r@ == wire_error_text(*self),
    {
        match self {
            WireError::NotOnCurve => String::from_str("not a canonical Ristretto point"),
            WireError::NonCanonicalScalar => String::from_str("scalar is not canonically reduced"),
            WireError::MalformedMessage => String::from_str("wire message is malformed"),
            WireError::BadSignature => String::from_str("wire message signature does not verify"),
        }
    }
}

/// The message that describes an error of the one-round output phase.
pub open spec fn output_error_text(e: DkgOutputError) -> Seq<char> {
    match e {
        DkgOutputError::InvalidParameters => "invalid DKG parameters"@,
        DkgOutputError::InvalidWire => "a received message is malformed or not authentic"@,
        DkgOutputError::InvalidBatchProof { dealer_idx } => "well-formedness proof of dealer "@ + decimal(
            dealer_idx as nat,
        ) + " is invalid"@,
        DkgOutputError::MissingCiphertext { dealer_idx, receiver_idx } => "dealer "@ + decimal(dealer_idx as nat)
            + " sent no ciphertext for party "@ + decimal(receiver_idx as nat) + ""@,
        DkgOutputError::InvalidEncryptionProof { dealer_idx } => "encryption proof of dealer "@ + decimal(
            dealer_idx as nat,
        ) + " is invalid"@,
        DkgOutputError::InvalidDecryptionOpening { dealer_idx, receiver_idx, .. } => "share of dealer "@ + decimal(
            dealer_idx as nat,
        ) + " for party "@ + decimal(receiver_idx as nat) + " does not open its commitment"@,
        DkgOutputError::InvalidSignature { dealer_idx } => "signature of dealer "@ + decimal(dealer_idx as nat)
            + " is invalid"@,
    }
}

impl DkgOutputError {
    /// The message that describes the error.
    pub fn to_string(&self) -> (r: String)
        ensures
            r@ == output_error_text(*self),
    {
        match self {
            DkgOutputError::InvalidParameters => String::from_str("invalid DKG parameters"),
            DkgOutputError::InvalidWire => String::from_str("a received message is malformed or not authentic"),
            DkgOutputError::InvalidBatchProof { dealer_idx } => text1("well-formedness proof of dealer ", *dealer_idx, " is invalid"),
            DkgOutputError::MissingCiphertext { dealer_idx, receiver_idx } => text2(
                "dealer ",
                *dealer_idx,
                " sent no ciphertext for party ",
                *receiver_idx,
                "",
            ),
            DkgOutputError::InvalidEncryptionProof { dealer_idx } => text1("encryption proof of dealer ", *dealer_idx, " is invalid"),
            DkgOutputError::InvalidDecryptionOpening { dealer_idx, receiver_idx, .. } => text2(
                "share of dealer ",
                *dealer_idx,
                " for party ",
                *receiver_idx,
                " does not open its commitment",
            ),
            DkgOutputError::InvalidSignature { dealer_idx } => text1("signature of dealer ", *dealer_idx, " is invalid"),
        }
    }
}

/// The message that describes an error of the two-round protocol.
pub open spec fn two_round_error_text(e: TwoRoundDkgError) -> Seq<char> {
    match e {
        TwoRoundDkgError::InvalidParameters => "invalid DKG parameters"@,
        TwoRoundDkgError::InvalidSignature { dealer_idx } => "signature of dealer "@ + decimal(dealer_idx as nat)
            + " is invalid"@,
        TwoRoundDkgError::MissingCiphertext { dealer_idx, receiver_idx } => "dealer "@ + decimal(dealer_idx as nat)
            + " sent no ciphertext for party "@ + decimal(receiver_idx as nat) + ""@,
        TwoRoundDkgError::InvalidDecryptionOpening { dealer_idx, receiver_idx, .. } => "share of dealer "@ + decimal(
            dealer_idx as nat,
        ) + " for party "@ + decimal(receiver_idx as nat) + " does not open its commitment"@,
        TwoRoundDkgError::InvalidEncryptionProof { dealer_idx } => "encryption proof of dealer "@ + decimal(
            dealer_idx as nat,
        ) + " is invalid"@,
        TwoRoundDkgError::InvalidDecomProof { dealer_idx } => "decomposition proof of dealer "@ + decimal(
            dealer_idx as nat,
        ) + " is invalid"@,
        TwoRoundDkgError::InvalidPkProof { dealer_idx } => "public key proof of dealer "@ + decimal(dealer_idx as nat)
            + " is invalid"@,
        TwoRoundDkgError::InvalidComEqProof { dealer_idx } => "commitment equality proof of dealer "@ + decimal(
            dealer_idx as nat,
        ) + " is invalid"@,
        TwoRoundDkgError::InvalidPedVssLength { dealer_idx } => "dealer "@ + decimal(dealer_idx as nat)
            + " sent a VSS vector of the wrong length"@,
        TwoRoundDkgError::MissingRound2Message { dealer_idx } => "dealer "@ + decimal(dealer_idx as nat)
            + " sent no round 2 message"@,
    }
}

impl TwoRoundDkgError {
    /// The message that describes the error.
    pub fn to_string(&self) -> (r: String)
        ensures
            r@ == two_round_error_text(*self),
    {
        match self {
            TwoRoundDkgError::InvalidParameters => String::from_str("invalid DKG parameters"),
            TwoRoundDkgError::InvalidSignature { dealer_idx } => text1("signature of dealer ", *dealer_idx, " is invalid"),
            TwoRoundDkgError::MissingCiphertext { dealer_idx, receiver_idx } => text2(
                "dealer ",
                *dealer_idx,
                " sent no ciphertext for party ",
                *receiver_idx,
                "",
            ),
            TwoRoundDkgError::InvalidDecryptionOpening { dealer_idx, receiver_idx, .. } => text2(
                "share of dealer ",
                *dealer_idx,
                " for party ",
                *receiver_idx,
                " does not open its commitment",
            ),
            TwoRoundDkgError::InvalidEncryptionProof { dealer_idx } => text1("encryption proof of dealer ", *dealer_idx, " is invalid"),
            TwoRoundDkgError::InvalidDecomProof { dealer_idx } => text1("decomposition proof of dealer ", *dealer_idx, " is invalid"),
            TwoRoundDkgError::InvalidPkProof { dealer_idx } => text1("public key proof of dealer ", *dealer_idx, " is invalid"),
            TwoRoundDkgError::InvalidComEqProof { dealer_idx } => text1(
                "commitment equality proof of dealer ",
                *dealer_idx,
                " is invalid",
            ),
            TwoRoundDkgError::InvalidPedVssLength { dealer_idx } => text1("dealer ", *dealer_idx, " sent a VSS vector of the wrong length"),
            TwoRoundDkgError::MissingRound2Message { dealer_idx } => text1("dealer ", *dealer_idx, " sent no round 2 message"),
        }
    }
}

} // verus!

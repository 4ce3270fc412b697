//! The `name=prefix` directive grammar: a group name, `=`, and an IPv4
//! network in CIDR form. The name may not contain a colon, since colons
//! separate names inside tag values.

use vstd::prelude::*;

use crate::text::{find_char, lemma_find_char, find_char_str};

verus! {

/// The canonical `address/prefix-length` form of an IPv4 network, if the
/// string parses as one: what `ipnet::Ipv4Net` makes of the characters.
pub uninterp spec fn ipv4_net_norm(s: Seq<char>) -> Option<Seq<char>>;

/// Relies on `ipnet::Ipv4Net`'s `FromStr`, which accepts exactly the
/// `address/prefix-length` grammar, and on its `Display`, which writes the
/// parsed network back in that form; both depend on the characters alone.
#[verifier::external_body]
pub(crate) fn parse_ipv4_net(s: &str) -> (r: Option<String>)
    ensures
        match r {
            Some(t) => ipv4_net_norm(s@) == Some(t@),
            None => ipv4_net_norm(s@) is None,
        },
{
    match s.parse::<ipnet::Ipv4Net>() {
        Ok(n) => Some(n.to_string()),
        Err(_) => None,
    }
}

/// Why a `name=prefix` directive was rejected.
#[derive(Clone, Copy, Debug, PartialEq, Eq, Structural)]
pub enum CidrMapError {
    /// No `=` separator, so no name for the mapping.
    MissingName,
    /// The name contains a colon, which the tag syntax reserves.
    ColonInName,
    /// The part after `=` is not an IPv4 network in CIDR form.
    InvalidCidr,
}

impl CidrMapError {
    /// The message shown for this error on the command line.
    pub fn message(&self) -> (r: &'static str)
        ensures
            r@ == match self {
                CidrMapError::MissingName => "no name found for cidr mapping"@,
                CidrMapError::ColonInName => "colon (:) not allowed in cidr name"@,
                CidrMapError::InvalidCidr => "invalid CIDR"@,
            },
    {
        match self {
            CidrMapError::MissingName => "no name found for cidr mapping",
            CidrMapError::ColonInName => "colon (:) not allowed in cidr name",
            CidrMapError::InvalidCidr => "invalid CIDR",
        }
    }
}

/// What a `name=prefix` directive denotes: the name before the first `=`,
/// which must be colon-free, and the canonical form of the network after it.
pub open spec fn parse_key_val_spec(s: Seq<char>) -> Result<(Seq<char>, Seq<char>), CidrMapError> {
    match find_char(s, '=') {
        None => Err(CidrMapError::MissingName),
        Some(i) => {
            let key = s.take(i);
            let rest = s.skip(i + 1);
            if find_char(key, ':') is Some {
                Err(CidrMapError::ColonInName)
            } else {
                match ipv4_net_norm(rest) {
                    Some(c) => Ok((key, c)),
                    None => Err(CidrMapError::InvalidCidr),
                }
            }
        },
    }
}

/// Parses one `name=prefix` directive.
pub fn parse_key_val(s: &str) -> (r: Result<(String, String), CidrMapError>)
    ensures
        match r {
            Ok(kv) => parse_key_val_spec(s@) == Ok::<(Seq<char>, Seq<char>), CidrMapError>(
                (kv.0@, kv.1@),
            ),
            Err(e) => parse_key_val_spec(s@) == Err::<(Seq<char>, Seq<char>), CidrMapError>(e),
        },
{
    match find_char_str(s, '=') {
        None => Err(CidrMapError::MissingName),
        Some(pos) => {
            proof {
                lemma_find_char(s@, '=');
            }
            let len = s.unicode_len();
            let key = s.substring_char(0, pos);
            let rest = s.substring_char(pos + 1, len);
            proof {
                assert(key@ =~= s@.take(pos as int));
                assert(rest@ =~= s@.skip(pos + 1));
            }
            match find_char_str(key, ':') {
                Some(_) => Err(CidrMapError::ColonInName),
                None => match parse_ipv4_net(rest) {
                    Some(c) => Ok((String::from_str(key), c)),
                    None => Err(CidrMapError::InvalidCidr),
                },
            }
        },
    }
}

} // verus!

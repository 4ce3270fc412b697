//! The ports tag grammar: colon-separated tokens, each `port` or
//! `port/protocol`. The protocol defaults to `tcp` and is passed through
//! without any validation; the port must parse as a decimal integer.

use vstd::prelude::*;

use crate::text::{find_char, lemma_find_char, find_char_str, parse_i32_spec, parse_i32_str,
    split_chars, split_str};

verus! {

/// The ports tag value could not be parsed: some token's port is not a
/// decimal integer.
#[derive(Clone, Copy, Debug, PartialEq, Eq, Structural)]
pub struct InvalidPortError;

/// What one ports token denotes: the decimal port before the first `/`, and
/// the protocol after it, `tcp` when there is none.
pub open spec fn port_token_spec(t: Seq<char>) -> Option<(i32, Seq<char>)> {
    let ps = match find_char(t, '/') {
        Some(i) => t.take(i),
        None => t,
    };
    let proto = match find_char(t, '/') {
        Some(i) => t.skip(i + 1),
        None => "tcp"@,
    };
    match parse_i32_spec(ps) {
        Some(p) => Some((p, proto)),
        None => None,
    }
}

/// What a sequence of ports tokens denotes, in order; `None` as soon as any
/// token is invalid.
pub open spec fn port_tokens_spec(toks: Seq<Seq<char>>) -> Option<Seq<(i32, Seq<char>)>>
    decreases toks.len(),
{
    if toks.len() == 0 {
        Some(Seq::empty())
    } else {
        match port_tokens_spec(toks.drop_last()) {
            None => None,
            Some(rest) => match port_token_spec(toks.last()) {
                None => None,
                Some(pp) => Some(rest.push(pp)),
            },
        }
    }
}

/// One invalid token anywhere makes the whole sequence invalid.
pub proof fn lemma_port_tokens_fail(toks: Seq<Seq<char>>, i: int)
    requires
        0 <= i < toks.len(),
        port_token_spec(toks[i]) is None,
    ensures
        port_tokens_spec(toks) is None,
    decreases toks.len(),
{
    if i < toks.len() - 1 {
        assert(toks.drop_last()[i] == toks[i]);
        lemma_port_tokens_fail(toks.drop_last(), i);
    }
}

/// What a whole ports tag value denotes.
pub open spec fn parse_port_protocols_spec(s: Seq<char>) -> Option<Seq<(i32, Seq<char>)>> {
    port_tokens_spec(split_chars(s, ':'))
}

/// Parses one token of the ports tag.
fn parse_port_token(t: &str) -> (r: Option<(i32, String)>)
    ensures
        match r {
            Some(pp) => port_token_spec(t@) == Some((pp.0, pp.1@)),
            None => port_token_spec(t@) is None,
        },
{
    let len = t.unicode_len();
    match find_char_str(t, '/') {
        Some(i) => {
            proof {
                lemma_find_char(t@, '/');
            }
            let ps = t.substring_char(0, i);
            let proto = String::from_str(t.substring_char(i + 1, len));
            proof {
                assert(ps@ =~= t@.take(i as int));
                assert(proto@ =~= t@.skip(i + 1));
            }
            match parse_i32_str(ps) {
                Some(p) => Some((p, proto)),
                None => None,
            }
        },
        None => {
            match parse_i32_str(t) {
                Some(p) => Some((p, String::from_str("tcp"))),
                None => None,
            }
        },
    }
}

/// Parses a ports tag value: `443` means `(443, tcp)`, `443/udp:80` means
/// `(443, udp)` then `(80, tcp)`. Fails exactly when some token's port is
/// not a decimal integer in range.
pub fn parse_port_protocols(value: &str) -> (r: Result<Vec<(i32, String)>, InvalidPortError>)
    ensures
        match r {
            Ok(v) => parse_port_protocols_spec(value@) == Some(v.deep_view()),
            Err(e) => parse_port_protocols_spec(value@) is None,
        },
{
    let toks = split_str(value, ':');
    let mut out: Vec<(i32, String)> = Vec::new();
    let mut i: usize = 0;
    proof {
        assert(toks.deep_view().take(0) =~= Seq::<Seq<char>>::empty());
        assert(out.deep_view() =~= Seq::<(i32, Seq<char>)>::empty());
    }
    while i < toks.len()
        invariant
            toks.deep_view() == split_chars(value@, ':'),
            toks.deep_view().len() == toks.len(),
            0 <= i <= toks.len(),
            port_tokens_spec(toks.deep_view().take(i as int)) == Some(out.deep_view()),
        decreases toks.len() - i,
    {
        proof {
            assert(toks.deep_view()[i as int] == toks[i as int]@);
        }
        match parse_port_token(toks[i].as_str()) {
            None => {
                proof {
                    lemma_port_tokens_fail(toks.deep_view(), i as int);
                }
                return Err(InvalidPortError);
            },
            Some(pp) => {
                proof {
                    assert(toks.deep_view().take(i + 1).drop_last() =~= toks.deep_view().take(
                        i as int,
                    ));
                    assert(toks.deep_view().take(i + 1).last() == toks.deep_view()[i as int]);
                }
                let ghost old_out = out.deep_view();
                out.push(pp);
                proof {
                    assert(out.deep_view() =~= old_out.push((pp.0, pp.1@)));
                }
            },
        }
        i = i + 1;
    }
    proof {
        assert(toks.deep_view().take(toks.len() as int) =~= toks.deep_view());
    }
    Ok(out)
}

} // verus!

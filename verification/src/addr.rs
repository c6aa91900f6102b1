//! Line addresses for the editor front-end: a regex, a line range, an
//! open-ended range, or the last line, parsed from the head of a command
//! line.

use vstd::prelude::*;

use vstd::string::StrSliceExecFns;
use vstd::string::StringExecFns;

verus! {

/// A parsed address.
#[derive(Clone, Debug, PartialEq, Eq)]
pub enum Address {
    Rgx(String),
    Rng(usize, usize),
    RngF(usize),
    Last,
}

/// The mathematical form of an address.
pub enum AddressV {
    Rgx(Seq<char>),
    Rng(int, int),
    RngF(int),
    Last,
}

impl View for Address {
    type V = AddressV;

    open spec fn view(&self) -> AddressV {
        match self {
            Address::Rgx(p) => AddressV::Rgx(p@),
            Address::Rng(a, b) => AddressV::Rng(*a as int, *b as int),
            Address::RngF(a) => AddressV::RngF(*a as int),
            Address::Last => AddressV::Last,
        }
    }
}

#[derive(Clone, Copy, Debug, PartialEq, Eq, Structural)]
pub enum AddrParseError {
    /// The escape character ended the pattern.
    EscapedEol,
    /// The range's start does not precede its end.
    EmptyRange,
    /// A line number does not fit the machine.
    NumberTooLarge,
    /// Nothing an address can start with.
    Unparsable,
}

pub open spec fn is_digit(c: char) -> bool {
    '0' <= c && c <= '9'
}

/// The value of a decimal digit string.
pub open spec fn dec_val(s: Seq<char>) -> int
    decreases s.len(),
{
    if s.len() == 0 {
        0
    } else {
        dec_val(s.drop_last()) * 10 + (s.last() as int - 48)
    }
}

/// How many digits the string starts with.
pub open spec fn digits_len(s: Seq<char>) -> int
    decreases s.len(),
{
    if s.len() == 0 || !is_digit(s[0]) {
        0
    } else {
        1 + digits_len(s.drop_first())
    }
}

/// What an escaped character stands for inside a pattern.
pub open spec fn unescape(c: char) -> char {
    if c == 'n' {
        '\n'
    } else if c == 't' {
        '\t'
    } else {
        c
    }
}

/// A pattern read until an unescaped slash (or the end): the pattern's
/// characters and the rest of the input. The quote character escapes;
/// a trailing escape is an error.
pub open spec fn rgx_parse(s: Seq<char>, escaped: bool) -> Option<(Seq<char>, Seq<char>)>
    decreases s.len(),
{
    if s.len() == 0 {
        if escaped {
            None
        } else {
            Some((Seq::empty(), s))
        }
    } else if escaped {
        match rgx_parse(s.drop_first(), false) {
            None => None,
            Some(pr) => Some((seq![unescape(s[0])] + pr.0, pr.1)),
        }
    } else if s[0] == '\'' {
        rgx_parse(s.drop_first(), true)
    } else if s[0] == '/' {
        Some((Seq::empty(), s.drop_first()))
    } else {
        match rgx_parse(s.drop_first(), false) {
            None => None,
            Some(pr) => Some((seq![s[0]] + pr.0, pr.1)),
        }
    }
}

/// The address grammar: `$`, `/pattern/`, `start,end`, `start,`, or a
/// bare line number standing for a one-line range.
pub open spec fn addr_spec(s: Seq<char>) -> Option<(AddressV, Seq<char>)> {
    if s.len() > 0 && s[0] == '$' {
        Some((AddressV::Last, s.drop_first()))
    } else if s.len() > 0 && s[0] == '/' {
        match rgx_parse(s.drop_first(), false) {
            None => None,
            Some(pr) => Some((AddressV::Rgx(pr.0), pr.1)),
        }
    } else {
        let dl = digits_len(s);
        if dl == 0 {
            None
        } else {
            let start = dec_val(s.take(dl));
            if start > usize::MAX {
                None
            } else {
                let rest = s.skip(dl);
                if rest.len() > 0 && rest[0] == ',' {
                    let dl2 = digits_len(rest.drop_first());
                    if dl2 == 0 {
                        Some((AddressV::RngF(start), rest.drop_first()))
                    } else {
                        let end = dec_val(rest.drop_first().take(dl2));
                        if end > usize::MAX {
                            None
                        } else if start < end {
                            Some(
                                (AddressV::Rng(start, end), rest.drop_first().skip(dl2)),
                            )
                        } else {
                            None
                        }
                    }
                } else {
                    if start == usize::MAX {
                        None
                    } else {
                        Some((AddressV::Rng(start, start + 1), rest))
                    }
                }
            }
        }
    }
}

pub proof fn lemma_digits_len_nonneg(s: Seq<char>)
    ensures
        0 <= digits_len(s) <= s.len(),
    decreases s.len(),
{
    if s.len() > 0 && is_digit(s[0]) {
        lemma_digits_len_nonneg(s.drop_first());
    }
}

proof fn lemma_dec_val_nonneg(s: Seq<char>)
    requires
        forall|i: int| 0 <= i < s.len() ==> is_digit(#[trigger] s[i]),
    ensures
        dec_val(s) >= 0,
    decreases s.len(),
{
    if s.len() > 0 {
        lemma_dec_val_nonneg(s.drop_last());
    }
}

/// Reads the decimal number the string starts with, returning its value
/// and what follows; nothing when there is no leading digit or the value
/// does not fit the machine.
pub fn parse_lnum(s: &str) -> (r: Option<(usize, String)>)
    ensures
        match r {
            Some(pr) => {
                &&& digits_len(s@) > 0
                &&& pr.0 == dec_val(s@.take(digits_len(s@)))
                &&& pr.1@ == s@.skip(digits_len(s@))
            },
            None => digits_len(s@) == 0 || dec_val(s@.take(digits_len(s@))) > usize::MAX,
        },
{
    let n = s.unicode_len();
    let mut i: usize = 0;
    let mut v: usize = 0;
    let mut over = false;
    proof {
        assert(s@.skip(0) =~= s@);
        assert(s@.take(0) =~= Seq::<char>::empty());
    }
    while i < n
        invariant
            i <= n,
            n == s@.len(),
            forall|m: int| 0 <= m < i ==> is_digit(#[trigger] s@[m]),
            digits_len(s@) == i + digits_len(s@.skip(i as int)),
            !over ==> v == dec_val(s@.take(i as int)),
            over ==> dec_val(s@.take(i as int)) > usize::MAX,
        ensures
            i <= n,
            n == s@.len(),
            forall|m: int| 0 <= m < i ==> is_digit(#[trigger] s@[m]),
            digits_len(s@) == i,
            !over ==> v == dec_val(s@.take(i as int)),
            over ==> dec_val(s@.take(i as int)) > usize::MAX,
        decreases n - i,
    {
        let c = s.get_char(i);
        if !(c >= '0' && c <= '9') {
            proof {
                assert(digits_len(s@.skip(i as int)) == 0);
            }
            break ;
        }
        proof {
            assert(is_digit(s@[i as int]));
            assert(s@.skip(i as int).drop_first() =~= s@.skip(i + 1));
            assert(digits_len(s@.skip(i as int)) == 1 + digits_len(s@.skip(i + 1)));
            assert(s@.take(i + 1).drop_last() =~= s@.take(i as int));
            assert(s@.take(i + 1).last() == s@[i as int]);
            assert(dec_val(s@.take(i + 1)) == dec_val(s@.take(i as int)) * 10 + (
            s@[i as int] as int - 48));
            assert forall|m: int| 0 <= m < i + 1 implies is_digit(#[trigger] s@.take(
                i + 1,
            )[m]) by {
                assert(s@.take(i + 1)[m] == s@[m]);
            }
            lemma_dec_val_nonneg(s@.take(i + 1));
            lemma_dec_val_nonneg(s@.take(i as int));
        }
        let d = (c as u32) as usize - 48;
        if over || v > (usize::MAX - d) / 10 {
            over = true;
        } else {
            v = v * 10 + d;
        }
        i = i + 1;
    }
    if i == 0 || over {
        return None;
    }
    let rest = s.substring_char(i, n).to_owned();
    Some((v, rest))
}

/// Parses an address from the head of the input, returning it and the
/// rest of the line.
pub fn parse_address(s: &str) -> (r: Result<(Address, String), AddrParseError>)
    ensures
        match r {
            Ok(pr) => addr_spec(s@) == Some((pr.0@, pr.1@)),
            Err(_) => addr_spec(s@) is None,
        },
{
    let n = s.unicode_len();
    if n > 0 && s.get_char(0) == '$' {
        let rest = s.substring_char(1, n).to_owned();
        proof {
            assert(s@.drop_first() =~= s@.subrange(1, n as int));
        }
        return Ok((Address::Last, rest));
    }
    if n > 0 && s.get_char(0) == '/' {
        let mut pat = String::new();
        let mut i: usize = 1;
        let mut escaped = false;
        let ghost tail0 = s@.skip(1);
        proof {
            assert(tail0 =~= s@.drop_first());
        }
        loop
            invariant
                1 <= i <= n,
                n == s@.len(),
                tail0 == s@.skip(1),
                rgx_parse(tail0, false) == (match rgx_parse(s@.skip(i as int), escaped) {
                    None => None::<(Seq<char>, Seq<char>)>,
                    Some(pr) => Some((pat@ + pr.0, pr.1)),
                }),
            ensures
                n == s@.len(),
                i <= n,
                escaped ==> rgx_parse(tail0, false) is None,
                (!escaped && i < n) ==> (s@[i as int] == '/' && rgx_parse(tail0, false)
                    == Some((pat@, s@.skip(i as int).drop_first()))),
                (!escaped && i == n) ==> rgx_parse(tail0, false) == Some(
                    (pat@, Seq::<char>::empty()),
                ),
            decreases n - i,
        {
            if i >= n {
                proof {
                    assert(s@.skip(i as int) =~= Seq::<char>::empty());
                    if !escaped {
                        assert(pat@ + Seq::<char>::empty() =~= pat@);
                    }
                }
                break ;
            }
            let c = s.get_char(i);
            let ghost oldpat = pat@;
            proof {
                assert(s@.skip(i as int)[0] == s@[i as int]);
                assert(s@.skip(i as int).drop_first() =~= s@.skip(i + 1));
            }
            if escaped {
                if c == 'n' {
                    pat.append("\n");
                    proof {
                        reveal_strlit("\n");
                        assert(pat@ =~= oldpat + seq![unescape(s@[i as int])]);
                    }
                } else if c == 't' {
                    pat.append("\t");
                    proof {
                        reveal_strlit("\t");
                        assert(pat@ =~= oldpat + seq![unescape(s@[i as int])]);
                    }
                } else {
                    pat.append(s.substring_char(i, i + 1));
                    proof {
                        assert(s@.subrange(i as int, i + 1) =~= seq![s@[i as int]]);
                        assert(pat@ =~= oldpat + seq![unescape(s@[i as int])]);
                    }
                }
                escaped = false;
                proof {
                    match rgx_parse(s@.skip(i + 1), false) {
                        None => {
                        },
                        Some(pr) => {
                            assert(oldpat + (seq![unescape(s@[i as int])] + pr.0) =~= pat@
                                + pr.0);
                        },
                    }
                }
            } else if c == '\'' {
                escaped = true;
            } else if c == '/' {
                proof {
                    assert(pat@ + Seq::<char>::empty() =~= pat@);
                }
                break ;
            } else {
                pat.append(s.substring_char(i, i + 1));
                proof {
                    assert(s@.subrange(i as int, i + 1) =~= seq![s@[i as int]]);
                    assert(pat@ =~= oldpat + seq![s@[i as int]]);
                    match rgx_parse(s@.skip(i + 1), false) {
                        None => {
                        },
                        Some(pr) => {
                            assert(oldpat + (seq![s@[i as int]] + pr.0) =~= pat@ + pr.0);
                        },
                    }
                }
            }
            i = i + 1;
        }
        if escaped {
            return Err(AddrParseError::EscapedEol);
        }
        let rest = if i < n {
            s.substring_char(i + 1, n).to_owned()
        } else {
            String::new()
        };
        proof {
            if i < n {
                assert(s@.skip(i as int).drop_first() =~= s@.subrange(i + 1, n as int));
            }
        }
        return Ok((Address::Rgx(pat), rest));
    }
    // A numeric address.
    let (start, rest1) = match parse_lnum(s) {
        Some(pr) => pr,
        None => {
            if n == 0 {
                proof {
                    assert(digits_len(s@) == 0);
                }
                return Err(AddrParseError::Unparsable);
            }
            let c0 = s.get_char(0);
            if c0 >= '0' && c0 <= '9' {
                return Err(AddrParseError::NumberTooLarge);
            }
            proof {
                assert(digits_len(s@) == 0);
            }
            return Err(AddrParseError::Unparsable);
        },
    };
    let rn = rest1.as_str().unicode_len();
    if rn > 0 && rest1.as_str().get_char(0) == ',' {
        let after = rest1.as_str().substring_char(1, rn);
        proof {
            assert(after@ =~= rest1@.drop_first());
        }
        match parse_lnum(after) {
            Some(pr2) => {
                let end = pr2.0;
                if start < end {
                    return Ok((Address::Rng(start, end), pr2.1));
                } else {
                    return Err(AddrParseError::EmptyRange);
                }
            },
            None => {
                let c_over = after.unicode_len() > 0 && after.get_char(0) >= '0'
                    && after.get_char(0) <= '9';
                if c_over {
                    proof {
                        assert(is_digit(after@[0]));
                        lemma_digits_len_nonneg(after@.drop_first());
                        assert(digits_len(after@) > 0);
                        assert(dec_val(after@.take(digits_len(after@))) > usize::MAX);
                        assert(addr_spec(s@) is None);
                    }
                    return Err(AddrParseError::NumberTooLarge);
                }
                let rest2 = rest1.as_str().substring_char(1, rn).to_owned();
                return Ok((Address::RngF(start), rest2));
            },
        }
    }
    if start == usize::MAX {
        return Err(AddrParseError::NumberTooLarge);
    }
    Ok((Address::Rng(start, start + 1), rest1))
}

} // verus!

//! Command-line facing data: color selection and port-specification parsing.

use vstd::prelude::*;
use vstd::string::StringExecFns;
use vstd::string::StrSliceExecFns;
use crate::scan::Port;
use crate::scan::Status;
use crate::scan::fresh_ports;
use crate::scan::port_nums;

verus! {

/// The error a malformed port specification raises: the whole run is refused
/// before any probing starts.
#[derive(PartialEq, Eq, Structural, Clone, Copy, Debug)]
pub enum ParseError {
    InvalidPortSyntax,
}

/// Whether table output is painted with ANSI color codes.
#[derive(PartialEq, Eq, Structural, Clone, Copy, Debug)]
pub enum CliColors {
    /// Paint even when standard output is not a terminal.
    Always,
    /// Paint only when standard output is a terminal.
    Yes,
    /// Never paint.
    No,
}

/// A message wrapped in an ANSI color code and the reset code.
pub open spec fn painted(msg: Seq<char>, color: Seq<char>) -> Seq<char> {
    color + msg + "\x1b[0m"@
}

/// Relies on atty::is: tells whether standard output is a terminal.
/// The answer depends on the process environment, so nothing is promised of it.
#[verifier::external_body]
fn stdout_is_tty() -> bool {
    atty::is(atty::Stream::Stdout)
}

/// Wraps `msg` in `color` and the ANSI reset code when `flag` holds,
/// and returns it unchanged otherwise.
pub fn paint_if(flag: bool, msg: &str, color: &str) -> (r: String)
    ensures
        flag ==> r@ == painted(msg@, color@),
        !flag ==> r@ == msg@,
{
    if flag {
        let mut s = String::from_str(color);
        s.append(msg);
        s.append("\x1b[0m");
        s
    } else {
        String::from_str(msg)
    }
}

impl CliColors {
    /// Paints `msg` according to the color mode: always, never, or only when
    /// standard output is a terminal.
    pub fn paint(&self, msg: &str, color: &str) -> (r: String)
        ensures
            self is Always ==> r@ == painted(msg@, color@),
            self is No ==> r@ == msg@,
            r@ == painted(msg@, color@) || r@ == msg@,
    {
        let flag: bool = match self {
            CliColors::Always => true,
            CliColors::Yes => stdout_is_tty(),
            CliColors::No => false,
        };
        paint_if(flag, msg, color)
    }
}

impl Default for CliColors {
    /// Colors are on by default only when standard output is a terminal.
    fn default() -> (r: Self)
        ensures
            r is Yes || r is No,
    {
        if stdout_is_tty() {
            CliColors::Yes
        } else {
            CliColors::No
        }
    }
}

/// A decimal digit.
pub open spec fn is_digit(c: char) -> bool {
    48 <= c as u32 && c as u32 <= 57
}

/// The value of a decimal digit.
pub open spec fn digit_val(c: char) -> nat {
    (c as u32 - 48) as nat
}

/// Every character of the string is a decimal digit.
pub open spec fn all_digits(s: Seq<char>) -> bool {
    forall|i: int| 0 <= i < s.len() ==> is_digit(#[trigger] s[i])
}

/// The numeric value of a digit string.
pub open spec fn dec_val(s: Seq<char>) -> nat
    decreases s.len(),
{
    if s.len() == 0 {
        0
    } else {
        dec_val(s.drop_last()) * 10 + digit_val(s.last())
    }
}

/// A valid port literal: a non-empty digit string whose value is a positive
/// port number. Zero is rejected at parse time.
pub open spec fn is_port_str(s: Seq<char>) -> bool {
    s.len() > 0 && all_digits(s) && 1 <= dec_val(s) <= 65535
}

/// Parses a bare port literal: succeeds exactly on non-empty digit strings
/// whose value is in 1..=65535, and returns that value.
pub fn parse_port(s: &str) -> (r: Result<u16, ParseError>)
    ensures
        r is Ok <==> is_port_str(s@),
        r matches Ok(v) ==> v as nat == dec_val(s@) && 1 <= v <= 65535,
{
    let n = s.unicode_len();
    if n == 0 {
        return Err(ParseError::InvalidPortSyntax);
    }
    let mut acc: u32 = 0;
    let mut i: usize = 0;
    proof {
        assert(s@.take(0) =~= Seq::<char>::empty());
    }
    while i < n
        invariant
            i <= n,
            n == s@.len(),
            all_digits(s@.take(i as int)),
            dec_val(s@.take(i as int)) <= 65535 ==> acc == dec_val(s@.take(i as int)),
            dec_val(s@.take(i as int)) > 65535 ==> acc == 100000,
            acc <= 100000,
        decreases n - i,
    {
        let c = s.get_char(i);
        let cv = c as u32;
        if cv < 48 || cv > 57 {
            proof {
                assert(!is_digit(s@[i as int]));
            }
            return Err(ParseError::InvalidPortSyntax);
        }
        let d = cv - 48;
        proof {
            assert(s@.take(i + 1).drop_last() =~= s@.take(i as int));
            assert(s@.take(i + 1).last() == s@[i as int]);
            assert forall|j: int| 0 <= j < i + 1 implies is_digit(#[trigger] s@.take(i + 1)[j]) by {
                if j < i {
                    assert(is_digit(s@.take(i as int)[j]));
                } else {
                    assert(s@.take(i + 1)[j] == s@[i as int]);
                }
            }
        }
        let next = acc * 10 + d;
        if next > 65535 {
            acc = 100000;
        } else {
            acc = next;
        }
        i = i + 1;
    }
    proof {
        assert(s@.take(n as int) =~= s@);
    }
    if acc == 0 || acc > 65535 {
        Err(ParseError::InvalidPortSyntax)
    } else {
        Ok(acc as u16)
    }
}

/// The index of the first occurrence of `c` in `s`, if any.
pub open spec fn first_char(s: Seq<char>, c: char) -> Option<int>
    decreases s.len(),
{
    if s.len() == 0 {
        None
    } else if s[0] == c {
        Some(0)
    } else {
        match first_char(s.drop_first(), c) {
            Some(i) => Some(i + 1),
            None => None,
        }
    }
}

/// `first_char` finds exactly the first occurrence.
pub proof fn lemma_first_char_props(s: Seq<char>, c: char)
    ensures
        match first_char(s, c) {
            Some(i) => 0 <= i < s.len() && s[i] == c && (forall|j: int|
                0 <= j < i ==> s[j] != c),
            None => forall|j: int| 0 <= j < s.len() ==> s[j] != c,
        },
    decreases s.len(),
{
    if s.len() == 0 {
    } else if s[0] == c {
    } else {
        lemma_first_char_props(s.drop_first(), c);
        match first_char(s.drop_first(), c) {
            Some(i) => {
                assert forall|j: int| 0 <= j < i + 1 implies s[j] != c by {
                    if j > 0 {
                        assert(s.drop_first()[j - 1] != c);
                    }
                }
            },
            None => {
                assert forall|j: int| 0 <= j < s.len() implies s[j] != c by {
                    if j > 0 {
                        assert(s.drop_first()[j - 1] != c);
                    }
                }
            },
        }
    }
}

/// The index of the first occurrence of `c`, as `first_char` describes.
fn find_char(s: &str, c: char) -> (r: Option<usize>)
    ensures
        match r {
            Some(i) => first_char(s@, c) == Some(i as int),
            None => first_char(s@, c) is None,
        },
{
    let n = s.unicode_len();
    let mut i: usize = 0;
    while i < n
        invariant
            i <= n,
            n == s@.len(),
            forall|j: int| 0 <= j < i ==> s@[j] != c,
        decreases n - i,
    {
        if s.get_char(i) == c {
            proof {
                lemma_first_char_props(s@, c);
            }
            return Some(i);
        }
        i = i + 1;
    }
    proof {
        lemma_first_char_props(s@, c);
    }
    None
}

/// The index of the first occurrence of a `..` range separator in `s`, if
/// any.
pub open spec fn first_dotdot(s: Seq<char>) -> Option<int>
    decreases s.len(),
{
    if s.len() < 2 {
        None
    } else if s[0] == '.' && s[1] == '.' {
        Some(0)
    } else {
        match first_dotdot(s.drop_first()) {
            Some(i) => Some(i + 1),
            None => None,
        }
    }
}

/// `first_dotdot` finds exactly the first occurrence.
pub proof fn lemma_first_dotdot_props(s: Seq<char>)
    ensures
        match first_dotdot(s) {
            Some(i) => 0 <= i && i + 1 < s.len() && s[i] == '.' && s[i + 1] == '.' && (forall|
                j: int,
            |
                0 <= j < i ==> !(#[trigger] s[j] == '.' && s[j + 1] == '.')),
            None => forall|j: int|
                0 <= j && j + 1 < s.len() ==> !(#[trigger] s[j] == '.' && s[j + 1] == '.'),
        },
    decreases s.len(),
{
    if s.len() < 2 {
    } else if s[0] == '.' && s[1] == '.' {
    } else {
        lemma_first_dotdot_props(s.drop_first());
        match first_dotdot(s.drop_first()) {
            Some(i) => {
                assert forall|j: int|
                    0 <= j < i + 1 implies !(#[trigger] s[j] == '.' && s[j + 1] == '.') by {
                    if j > 0 {
                        assert(!(s.drop_first()[j - 1] == '.' && s.drop_first()[j] == '.'));
                    }
                }
            },
            None => {
                assert forall|j: int|
                    0 <= j && j + 1 < s.len() implies !(#[trigger] s[j] == '.' && s[j + 1]
                    == '.') by {
                    if j > 0 {
                        assert(!(s.drop_first()[j - 1] == '.' && s.drop_first()[j] == '.'));
                    }
                }
            },
        }
    }
}

/// The index of the first `..` separator, as `first_dotdot` describes.
fn find_dotdot(s: &str) -> (r: Option<usize>)
    ensures
        match r {
            Some(i) => first_dotdot(s@) == Some(i as int),
            None => first_dotdot(s@) is None,
        },
{
    let n = s.unicode_len();
    if n < 2 {
        proof {
            lemma_first_dotdot_props(s@);
        }
        return None;
    }
    let mut i: usize = 0;
    while i + 1 < n
        invariant
            i + 1 <= n,
            n == s@.len(),
            2 <= n,
            forall|j: int| 0 <= j < i ==> !(#[trigger] s@[j] == '.' && s@[j + 1] == '.'),
        decreases n - i,
    {
        if s.get_char(i) == '.' && s.get_char(i + 1) == '.' {
            proof {
                lemma_first_dotdot_props(s@);
            }
            return Some(i);
        }
        i = i + 1;
    }
    proof {
        lemma_first_dotdot_props(s@);
    }
    None
}

/// The value a range bound denotes: the default when the bound is omitted,
/// its numeric value when it is a valid port literal, nothing otherwise.
pub open spec fn spec_bound(s: Seq<char>, dflt: u16) -> Option<u16> {
    if s.len() == 0 {
        Some(dflt)
    } else if is_port_str(s) {
        Some((dec_val(s) as u16))
    } else {
        None
    }
}

/// The inclusive range of port numbers from `lo` to `hi`, empty when the
/// bounds are inverted.
pub open spec fn range_ports(lo: u16, hi: u16) -> Seq<u16> {
    if lo <= hi {
        Seq::new((hi - lo + 1) as nat, |k: int| (lo + k) as u16)
    } else {
        Seq::empty()
    }
}

/// The ports a range token with the given bound strings denotes: a missing
/// lower bound defaults to 1, a missing upper bound to 65535.
pub open spec fn spec_range(lo_s: Seq<char>, hi_s: Seq<char>) -> Option<Seq<u16>> {
    match (spec_bound(lo_s, 1u16), spec_bound(hi_s, 65535u16)) {
        (Some(lo), Some(hi)) => Some(range_ports(lo, hi)),
        _ => None,
    }
}

/// The ports one specification token denotes: a range split at the first
/// `..` if there is one, else at the first `-`, else a single port literal.
pub open spec fn token_ports(s: Seq<char>) -> Option<Seq<u16>> {
    match first_dotdot(s) {
        Some(i) => spec_range(s.take(i), s.skip(i + 2)),
        None => match first_char(s, '-') {
            Some(i) => spec_range(s.take(i), s.skip(i + 1)),
            None => if is_port_str(s) {
                Some(seq![(dec_val(s) as u16)])
            } else {
                None
            },
        },
    }
}

/// Fresh pending records for the inclusive range `lo..=hi`.
fn expand_range(lo: u16, hi: u16) -> (r: Vec<Port>)
    ensures
        r@ == fresh_ports(range_ports(lo, hi)),
{
    let mut out: Vec<Port> = Vec::new();
    if lo > hi {
        proof {
            assert(out@ =~= fresh_ports(range_ports(lo, hi)));
        }
        return out;
    }
    let mut p: u32 = lo as u32;
    proof {
        assert(out@ =~= fresh_ports(range_ports(lo, hi).take(0)));
    }
    while p <= hi as u32
        invariant
            lo <= hi,
            lo as u32 <= p <= hi as u32 + 1,
            out@ == fresh_ports(range_ports(lo, hi).take(p - lo)),
        decreases hi as u32 + 1 - p,
    {
        out.push(Port { num: p as u16, stat: Status::Closed, meta: None });
        p = p + 1;
        proof {
            assert(range_ports(lo, hi).take(p - lo) =~= range_ports(lo, hi).take(
                p - 1 - lo,
            ).push((p - 1) as u16));
            assert(out@ =~= fresh_ports(range_ports(lo, hi).take(p - lo)));
        }
    }
    proof {
        assert(range_ports(lo, hi).take(p - lo) =~= range_ports(lo, hi));
    }
    out
}

/// Parses one range bound: an omitted bound means `dflt`, a present one must
/// be a valid port literal.
fn parse_bound(s: &str, dflt: u16) -> (r: Result<u16, ParseError>)
    ensures
        r is Ok <==> spec_bound(s@, dflt) is Some,
        r matches Ok(v) ==> spec_bound(s@, dflt) == Some(v),
{
    if s.unicode_len() == 0 {
        Ok(dflt)
    } else {
        parse_port(s)
    }
}

/// Parses a range token already split into its two bound strings.
fn parse_range(lo_s: &str, hi_s: &str) -> (r: Result<CliPort, ParseError>)
    ensures
        r is Ok <==> spec_range(lo_s@, hi_s@) is Some,
        r matches Ok(cp) ==> spec_range(lo_s@, hi_s@) matches Some(ns) && cp.0@ == fresh_ports(
            ns,
        ),
{
    let lo = match parse_bound(lo_s, 1) {
        Ok(v) => v,
        Err(e) => {
            return Err(e);
        },
    };
    let hi = match parse_bound(hi_s, 65535) {
        Ok(v) => v,
        Err(e) => {
            return Err(e);
        },
    };
    Ok(CliPort(expand_range(lo, hi)))
}

/// The expansion of one port-specification token: fresh pending records for
/// each port the token denotes.
#[derive(Debug)]
pub struct CliPort(pub Vec<Port>);

impl CliPort {
    /// Parses one specification token — a bare port, or a range written
    /// `A..B` or `A-B` whose bounds may be omitted — into the ports it
    /// denotes, exactly as `token_ports` describes.
    pub fn from_str(s: &str) -> (r: Result<CliPort, ParseError>)
        ensures
            r is Ok <==> token_ports(s@) is Some,
            r matches Ok(cp) ==> token_ports(s@) matches Some(ns) && cp.0@ == fresh_ports(ns),
    {
        let n = s.unicode_len();
        match find_dotdot(s) {
            Some(i) => {
                proof {
                    lemma_first_dotdot_props(s@);
                }
                let lo_s = s.substring_char(0, i);
                let hi_s = s.substring_char(i + 2, n);
                proof {
                    assert(lo_s@ =~= s@.take(i as int));
                    assert(hi_s@ =~= s@.skip(i + 2));
                }
                parse_range(lo_s, hi_s)
            },
            None => match find_char(s, '-') {
                Some(i) => {
                    proof {
                        lemma_first_char_props(s@, '-');
                    }
                    let lo_s = s.substring_char(0, i);
                    let hi_s = s.substring_char(i + 1, n);
                    proof {
                        assert(lo_s@ =~= s@.take(i as int));
                        assert(hi_s@ =~= s@.skip(i + 1));
                    }
                    parse_range(lo_s, hi_s)
                },
                None => match parse_port(s) {
                    Ok(v) => {
                        let mut one: Vec<Port> = Vec::new();
                        one.push(Port::new(v));
                        proof {
                            assert(one@ =~= fresh_ports(seq![v]));
                        }
                        Ok(CliPort(one))
                    },
                    Err(e) => Err(e),
                },
            },
        }
    }
}

/// The comma-separated tokens of one specification string; a string without
/// commas is a single token.
pub open spec fn split_commas(s: Seq<char>) -> Seq<Seq<char>>
    decreases s.len(),
    via split_commas_dec
{
    match first_char(s, ',') {
        None => seq![s],
        Some(i) => seq![s.take(i)] + split_commas(s.skip(i + 1)),
    }
}

#[via_fn]
proof fn split_commas_dec(s: Seq<char>) {
    lemma_first_char_props(s, ',');
}

/// The concatenation of the ports every token denotes under `f`, if every
/// token is valid.
pub open spec fn concat_results(
    xs: Seq<Seq<char>>,
    f: spec_fn(Seq<char>) -> Option<Seq<u16>>,
) -> Option<Seq<u16>>
    decreases xs.len(),
{
    if xs.len() == 0 {
        Some(Seq::empty())
    } else {
        match (f(xs[0]), concat_results(xs.drop_first(), f)) {
            (Some(h), Some(t)) => Some(h + t),
            _ => None,
        }
    }
}

/// The ports one comma-separated specification string denotes.
pub open spec fn spec_parse_spec(s: Seq<char>) -> Option<Seq<u16>> {
    concat_results(split_commas(s), |t: Seq<char>| token_ports(t))
}

/// The ports a sequence of specification strings denotes, concatenated in
/// order.
pub open spec fn spec_parse_specs(xs: Seq<Seq<char>>) -> Option<Seq<u16>> {
    concat_results(xs, |t: Seq<char>| spec_parse_spec(t))
}

/// The views of a sequence of strings.
pub open spec fn str_views(xs: Seq<String>) -> Seq<Seq<char>> {
    xs.map_values(|s: String| s@)
}

/// `r` with `acc` prepended to its ports when it is valid.
pub open spec fn with_prefix(acc: Seq<u16>, r: Option<Seq<u16>>) -> Option<Seq<u16>> {
    match r {
        Some(t) => Some(acc + t),
        None => None,
    }
}

/// Parses one comma-separated specification string into fresh pending
/// records for the ports it denotes, exactly as `spec_parse_spec` describes.
pub fn parse_spec(s: &str) -> (r: Result<Vec<Port>, ParseError>)
    ensures
        r is Ok <==> spec_parse_spec(s@) is Some,
        r matches Ok(v) ==> spec_parse_spec(s@) matches Some(ns) && v@ == fresh_ports(ns),
{
    let mut out: Vec<Port> = Vec::new();
    let mut rest: &str = s;
    let ghost mut acc: Seq<u16> = Seq::empty();
    proof {
        assert(out@ =~= fresh_ports(acc));
        assert(spec_parse_spec(s@) == with_prefix(acc, spec_parse_spec(rest@))) by {
            match spec_parse_spec(rest@) {
                Some(t) => {
                    assert(acc + t =~= t);
                },
                None => {
                },
            }
        }
    }
    loop
        invariant
            out@ == fresh_ports(acc),
            spec_parse_spec(s@) == with_prefix(acc, spec_parse_spec(rest@)),
        decreases rest@.len(),
    {
        match find_char(rest, ',') {
            None => {
                proof {
                    let xs = split_commas(rest@);
                    assert(xs == seq![rest@]);
                    assert(xs[0] == rest@);
                    assert(xs.drop_first() =~= Seq::<Seq<char>>::empty());
                }
                match CliPort::from_str(rest) {
                    Ok(mut cp) => {
                        let ghost h = token_ports(rest@)->Some_0;
                        out.append(&mut cp.0);
                        proof {
                            assert(h + Seq::<u16>::empty() =~= h);
                            assert(spec_parse_spec(rest@) == Some(h));
                            acc = acc + h;
                            assert(out@ =~= fresh_ports(acc));
                        }
                        return Ok(out);
                    },
                    Err(e) => {
                        return Err(e);
                    },
                }
            },
            Some(i) => {
                let n = rest.unicode_len();
                proof {
                    lemma_first_char_props(rest@, ',');
                }
                let tok = rest.substring_char(0, i);
                let newrest = rest.substring_char(i + 1, n);
                proof {
                    assert(tok@ =~= rest@.take(i as int));
                    assert(newrest@ =~= rest@.skip(i + 1));
                    let xs = split_commas(rest@);
                    assert(xs == seq![rest@.take(i as int)] + split_commas(rest@.skip(i + 1)));
                    assert(xs[0] == tok@);
                    assert(xs.drop_first() =~= split_commas(newrest@));
                }
                match CliPort::from_str(tok) {
                    Ok(mut cp) => {
                        let ghost h = token_ports(tok@)->Some_0;
                        out.append(&mut cp.0);
                        proof {
                            assert(spec_parse_spec(rest@) == with_prefix(
                                h,
                                spec_parse_spec(newrest@),
                            ));
                            assert(spec_parse_spec(s@) == with_prefix(
                                acc + h,
                                spec_parse_spec(newrest@),
                            )) by {
                                match spec_parse_spec(newrest@) {
                                    Some(t) => {
                                        assert(acc + (h + t) =~= (acc + h) + t);
                                    },
                                    None => {
                                    },
                                }
                            }
                            acc = acc + h;
                            assert(out@ =~= fresh_ports(acc));
                        }
                        rest = newrest;
                    },
                    Err(e) => {
                        proof {
                            assert(spec_parse_spec(rest@) is None);
                        }
                        return Err(e);
                    },
                }
            },
        }
    }
}

/// Parses a sequence of specification strings into fresh pending records
/// for all the ports they denote, concatenated in the given order, exactly
/// as `spec_parse_specs` describes.
pub fn parse_specs(specs: &Vec<String>) -> (r: Result<Vec<Port>, ParseError>)
    ensures
        r is Ok <==> spec_parse_specs(str_views(specs@)) is Some,
        r matches Ok(v) ==> spec_parse_specs(str_views(specs@)) matches Some(ns) && v@
            == fresh_ports(ns),
{
    let mut out: Vec<Port> = Vec::new();
    let ghost mut acc: Seq<u16> = Seq::empty();
    let mut i: usize = 0;
    let n = specs.len();
    proof {
        assert(str_views(specs@).skip(0) =~= str_views(specs@));
        assert(out@ =~= fresh_ports(acc));
        assert(spec_parse_specs(str_views(specs@)) == with_prefix(
            acc,
            spec_parse_specs(str_views(specs@).skip(0)),
        )) by {
            match spec_parse_specs(str_views(specs@)) {
                Some(t) => {
                    assert(acc + t =~= t);
                },
                None => {
                },
            }
        }
    }
    while i < n
        invariant
            i <= n,
            n == specs@.len(),
            out@ == fresh_ports(acc),
            spec_parse_specs(str_views(specs@)) == with_prefix(
                acc,
                spec_parse_specs(str_views(specs@).skip(i as int)),
            ),
        decreases n - i,
    {
        let r1 = parse_spec(specs[i].as_str());
        proof {
            let vs = str_views(specs@);
            assert(vs.skip(i as int)[0] == specs@[i as int]@);
            assert(vs.skip(i as int).drop_first() =~= vs.skip(i + 1));
        }
        match r1 {
            Ok(mut v1) => {
                let ghost h = spec_parse_spec(specs@[i as int]@)->Some_0;
                out.append(&mut v1);
                proof {
                    let vs = str_views(specs@);
                    assert(spec_parse_specs(vs.skip(i as int)) == with_prefix(
                        h,
                        spec_parse_specs(vs.skip(i + 1)),
                    ));
                    assert(spec_parse_specs(vs) == with_prefix(
                        acc + h,
                        spec_parse_specs(vs.skip(i + 1)),
                    )) by {
                        match spec_parse_specs(vs.skip(i + 1)) {
                            Some(t) => {
                                assert(acc + (h + t) =~= (acc + h) + t);
                            },
                            None => {
                            },
                        }
                    }
                    acc = acc + h;
                    assert(out@ =~= fresh_ports(acc));
                }
                i = i + 1;
            },
            Err(e) => {
                return Err(e);
            },
        }
    }
    proof {
        let vs = str_views(specs@);
        assert(vs.skip(n as int) =~= Seq::<Seq<char>>::empty());
        match spec_parse_specs(vs) {
            Some(t) => {
                assert(acc + Seq::<u16>::empty() =~= acc);
            },
            None => {
            },
        }
    }
    Ok(out)
}

/// The concatenation of the port records of a sequence of parsed tokens.
pub open spec fn cliport_concat(xs: Seq<CliPort>) -> Seq<Port>
    decreases xs.len(),
{
    if xs.len() == 0 {
        Seq::empty()
    } else {
        xs[0].0@ + cliport_concat(xs.drop_first())
    }
}

/// Appending one parsed token appends its records.
pub proof fn lemma_cliport_concat_push(xs: Seq<CliPort>, x: CliPort)
    ensures
        cliport_concat(xs.push(x)) == cliport_concat(xs) + x.0@,
    decreases xs.len(),
{
    if xs.len() == 0 {
        assert(xs.push(x)[0] == x);
        assert(xs.push(x).drop_first() =~= Seq::<CliPort>::empty());
        assert(cliport_concat(xs.push(x).drop_first()) == Seq::<Port>::empty());
        assert(cliport_concat(xs.push(x)) == x.0@ + Seq::<Port>::empty());
        assert(cliport_concat(xs) == Seq::<Port>::empty());
        assert(x.0@ + Seq::<Port>::empty() =~= Seq::<Port>::empty() + x.0@);
    } else {
        lemma_cliport_concat_push(xs.drop_first(), x);
        assert(xs.push(x).drop_first() =~= xs.drop_first().push(x));
        assert(xs.push(x)[0] == xs[0]);
        assert(xs[0].0@ + (cliport_concat(xs.drop_first()) + x.0@) =~= (xs[0].0@
            + cliport_concat(xs.drop_first())) + x.0@);
    }
}

/// Flattens parsed tokens into one record list, keeping their order.
pub fn flatten_port_args(specs: Vec<CliPort>) -> (r: Vec<Port>)
    ensures
        r@ == cliport_concat(specs@),
{
    let ghost all = specs@;
    let mut inp = specs;
    let mut rev: Vec<CliPort> = Vec::new();
    loop
        invariant
            inp@.len() + rev@.len() == all.len(),
            inp@ == all.take(inp@.len() as int),
            forall|j: int| 0 <= j < rev@.len() ==> rev@[j] == all[all.len() - 1 - j],
        ensures
            rev@.len() == all.len(),
            forall|j: int| 0 <= j < rev@.len() ==> rev@[j] == all[all.len() - 1 - j],
        decreases inp@.len(),
    {
        match inp.pop() {
            Some(p) => {
                rev.push(p);
            },
            None => {
                break ;
            },
        }
    }
    let mut out: Vec<Port> = Vec::new();
    proof {
        assert(all.take(0) =~= Seq::<CliPort>::empty());
        assert(out@ =~= cliport_concat(all.take(0)));
    }
    loop
        invariant
            rev@.len() <= all.len(),
            forall|j: int| 0 <= j < rev@.len() ==> rev@[j] == all[all.len() - 1 - j],
            out@ == cliport_concat(all.take(all.len() - rev@.len())),
        ensures
            rev@.len() == 0,
            out@ == cliport_concat(all.take(all.len() as int)),
        decreases rev@.len(),
    {
        let ghost k = all.len() - rev@.len();
        match rev.pop() {
            Some(mut cp) => {
                proof {
                    assert(cp == all[k]);
                    assert(all.take(k + 1) =~= all.take(k as int).push(all[k]));
                    lemma_cliport_concat_push(all.take(k as int), all[k]);
                }
                out.append(&mut cp.0);
            },
            None => {
                break ;
            },
        }
    }
    proof {
        assert(all.take(all.len() as int) =~= all);
    }
    out
}

/// The normalized scan request: what the presentation layer hands the core.
/// The durations and counts are plain values; a well-formed request has a
/// positive timeout, a positive retry budget, and, when given, a positive
/// worker count.
#[derive(Debug)]
pub struct Args {
    /// The host to connect to; `None` means `localhost`.
    pub host: Option<String>,
    /// The parsed port specifications.
    pub port: Vec<CliPort>,
    /// Whether closed and timed-out ports are shown too.
    pub all: bool,
    /// Timeout of one connect attempt, in milliseconds; positive.
    pub timeout: u64,
    /// Attempt budget per port; positive.
    pub retries: usize,
    /// Worker budget; `None` means the number of available cores.
    pub threads: Option<usize>,
    /// Whether open ports are inspected.
    pub inspect: bool,
    /// The color mode of the output.
    pub colors: CliColors,
}

impl Args {
    /// A well-formed request: positive timeout, retries, and worker count.
    pub open spec fn wf(&self) -> bool {
        &&& self.timeout >= 1
        &&& self.retries >= 1
        &&& match self.threads {
            Some(t) => t >= 1,
            None => true,
        }
    }

    /// The host to scan: the given one, or `localhost`.
    pub fn effective_host(&self) -> (r: String)
        ensures
            match self.host {
                Some(h) => r@ == h@,
                None => r@ == "localhost"@,
            },
    {
        match &self.host {
            Some(h) => h.clone(),
            None => String::from_str("localhost"),
        }
    }

    /// The worker budget: the given one, or the available parallelism.
    pub fn effective_threads(&self, available: usize) -> (r: usize)
        requires
            available >= 1,
            self.wf(),
        ensures
            r == match self.threads {
                Some(t) => t,
                None => available,
            },
            r >= 1,
    {
        match self.threads {
            Some(t) => t,
            None => available,
        }
    }
}

/// Every port a token denotes is positive.
pub proof fn lemma_token_ports_pos(t: Seq<char>)
    ensures
        token_ports(t) matches Some(ns) ==> forall|j: int|
            0 <= j < ns.len() ==> 1 <= #[trigger] ns[j],
{
    match token_ports(t) {
        Some(ns) => {
            assert forall|j: int| 0 <= j < ns.len() implies 1 <= #[trigger] ns[j] by {
                match first_dotdot(t) {
                    Some(i) => {
                        assert(spec_bound(t.take(i), 1u16) matches Some(lo) && lo >= 1);
                    },
                    None => {
                        match first_char(t, '-') {
                            Some(i) => {
                                assert(spec_bound(t.take(i), 1u16) matches Some(lo) && lo
                                    >= 1);
                            },
                            None => {
                            },
                        }
                    },
                }
            }
        },
        None => {
        },
    }
}

/// Every port a comma-separated specification string denotes is positive.
pub proof fn lemma_parse_spec_pos(s: Seq<char>)
    ensures
        spec_parse_spec(s) matches Some(ns) ==> forall|j: int|
            0 <= j < ns.len() ==> 1 <= #[trigger] ns[j],
    decreases s.len(),
{
    lemma_first_char_props(s, ',');
    match first_char(s, ',') {
        None => {
            let xs = split_commas(s);
            assert(xs == seq![s]);
            assert(xs[0] == s);
            assert(xs.drop_first() =~= Seq::<Seq<char>>::empty());
            lemma_token_ports_pos(s);
            assert(concat_results(xs.drop_first(), |t: Seq<char>| token_ports(t)) == Some(
                Seq::<u16>::empty(),
            ));
            assert(spec_parse_spec(s) == (match token_ports(s) {
                Some(h0) => Some(h0 + Seq::<u16>::empty()),
                None => None,
            }));
            match spec_parse_spec(s) {
                Some(ns) => {
                    let h = token_ports(s)->Some_0;
                    assert(ns == h + Seq::<u16>::empty());
                    assert forall|j: int| 0 <= j < ns.len() implies 1 <= #[trigger] ns[j] by {
                        assert(ns[j] == h[j]);
                    }
                },
                None => {
                },
            }
        },
        Some(i) => {
            let xs = split_commas(s);
            assert(xs == seq![s.take(i)] + split_commas(s.skip(i + 1)));
            assert(xs[0] == s.take(i));
            assert(xs.drop_first() =~= split_commas(s.skip(i + 1)));
            lemma_token_ports_pos(s.take(i));
            lemma_parse_spec_pos(s.skip(i + 1));
            match spec_parse_spec(s) {
                Some(ns) => {
                    let h = token_ports(s.take(i))->Some_0;
                    let t2 = spec_parse_spec(s.skip(i + 1))->Some_0;
                    assert(ns == h + t2);
                    assert forall|j: int| 0 <= j < ns.len() implies 1 <= #[trigger] ns[j] by {
                        if j < h.len() {
                            assert(ns[j] == h[j]);
                        } else {
                            assert(ns[j] == t2[j - h.len()]);
                        }
                    }
                },
                None => {
                },
            }
        },
    }
}

/// Every port a sequence of specification strings denotes is positive.
pub proof fn lemma_parse_specs_pos(xs: Seq<Seq<char>>)
    ensures
        spec_parse_specs(xs) matches Some(ns) ==> forall|j: int|
            0 <= j < ns.len() ==> 1 <= #[trigger] ns[j],
    decreases xs.len(),
{
    if xs.len() == 0 {
    } else {
        lemma_parse_spec_pos(xs[0]);
        lemma_parse_specs_pos(xs.drop_first());
        match spec_parse_specs(xs) {
            Some(ns) => {
                let h = spec_parse_spec(xs[0])->Some_0;
                let t2 = spec_parse_specs(xs.drop_first())->Some_0;
                assert(ns == h + t2);
                assert forall|j: int| 0 <= j < ns.len() implies 1 <= #[trigger] ns[j] by {
                    if j < h.len() {
                        assert(ns[j] == h[j]);
                    } else {
                        assert(ns[j] == t2[j - h.len()]);
                    }
                }
            },
            None => {
            },
        }
    }
}

} // verus!

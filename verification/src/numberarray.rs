//! The hex number-array reader: a report descriptor written down as text,
//! in any of the common spellings — a continuous hex string, space- or
//! comma-separated byte tokens, optional `0x` prefixes, optional square
//! brackets around the whole list.

use vstd::prelude::*;

verus! {

use crate::textnum::is_ascii_ws;
use crate::textnum::spec_hex_u8_ok;
use crate::textnum::spec_hex_u8_val;
use crate::recording::spec_trim;
use crate::backends::EventNode;

/// How reading a number-array file fails.
#[derive(Clone, Copy, Debug, PartialEq, Eq, Structural)]
pub enum NumberArrayError {
    /// A continuous hex string with an odd number of digits.
    OddDigitCount,
    /// A token or digit pair that does not read as one hex byte.
    BadToken,
}

/// Whether a byte separates tokens: ASCII whitespace or a comma.
pub open spec fn spec_is_sep(c: u8) -> bool {
    is_ascii_ws(c) || c == 44
}

/// The index of the first separator, or -1.
pub open spec fn spec_find_sep(s: Seq<u8>) -> int
    decreases s.len(),
{
    if s.len() == 0 {
        -1
    } else if spec_is_sep(s[0]) {
        0
    } else {
        let r = spec_find_sep(s.skip(1));
        if r < 0 {
            -1
        } else {
            r + 1
        }
    }
}

proof fn lemma_find_sep(s: Seq<u8>)
    ensures
        spec_find_sep(s) >= 0 ==> {
            &&& spec_find_sep(s) < s.len()
            &&& spec_is_sep(s[spec_find_sep(s)])
            &&& forall|j: int| 0 <= j < spec_find_sep(s) ==> !spec_is_sep(s[j])
        },
        spec_find_sep(s) < 0 ==> forall|j: int| 0 <= j < s.len() ==> !spec_is_sep(s[j]),
    decreases s.len(),
{
    if s.len() > 0 && !spec_is_sep(s[0]) {
        lemma_find_sep(s.skip(1));
        let r = spec_find_sep(s.skip(1));
        if r >= 0 {
            assert forall|j: int| 0 <= j < r + 1 implies !spec_is_sep(s[j]) by {
                if j > 0 {
                    assert(!spec_is_sep(s.skip(1)[j - 1]));
                }
            }
        } else {
            assert forall|j: int| 0 <= j < s.len() implies !spec_is_sep(s[j]) by {
                if j > 0 {
                    assert(!spec_is_sep(s.skip(1)[j - 1]));
                }
            }
        }
    }
}

proof fn lemma_find_sep_first(s: Seq<u8>, i: int)
    requires
        0 <= i < s.len(),
        spec_is_sep(s[i]),
        forall|j: int| 0 <= j < i ==> !spec_is_sep(s[j]),
    ensures
        spec_find_sep(s) == i,
    decreases i,
{
    if i > 0 {
        lemma_find_sep_first(s.skip(1), i - 1);
        assert forall|j: int| 0 <= j < i - 1 implies !spec_is_sep(s.skip(1)[j]) by {
            assert(s.skip(1)[j] == s[j + 1]);
        }
    }
}

proof fn lemma_find_sep_none(s: Seq<u8>)
    requires
        forall|j: int| 0 <= j < s.len() ==> !spec_is_sep(s[j]),
    ensures
        spec_find_sep(s) < 0,
    decreases s.len(),
{
    if s.len() > 0 {
        lemma_find_sep_none(s.skip(1));
        assert(forall|j: int| 0 <= j < s.skip(1).len() ==> !spec_is_sep(s.skip(1)[j]));
    }
}

/// A token with any single leading `0x` or `0X` removed.
pub open spec fn spec_strip_hex_prefix(t: Seq<u8>) -> Seq<u8> {
    if t.len() >= 2 && t[0] == 48 && (t[1] == 120 || t[1] == 88) {
        t.skip(2)
    } else {
        t
    }
}

pub open spec fn spec_token_ok(t: Seq<u8>) -> bool {
    spec_hex_u8_ok(spec_strip_hex_prefix(t))
}

pub open spec fn spec_token_val(t: Seq<u8>) -> nat {
    spec_hex_u8_val(spec_strip_hex_prefix(t))
}

/// The parse of separated byte tokens: empty tokens are skipped, each other
/// token must read as one hex byte, the first bad token fails the parse.
pub open spec fn spec_parse_tokens(s: Seq<u8>) -> Result<Seq<u8>, NumberArrayError>
    decreases s.len(),
    via spec_parse_tokens_decreases
{
    let i = spec_find_sep(s);
    if i < 0 {
        if s.len() == 0 {
            Ok(Seq::empty())
        } else if spec_token_ok(s) {
            Ok(seq![spec_token_val(s) as u8])
        } else {
            Err(NumberArrayError::BadToken)
        }
    } else {
        let tok = s.take(i);
        if tok.len() == 0 {
            spec_parse_tokens(s.skip(i + 1))
        } else if spec_token_ok(tok) {
            match spec_parse_tokens(s.skip(i + 1)) {
                Err(e) => Err(e),
                Ok(rest) => Ok(seq![spec_token_val(tok) as u8] + rest),
            }
        } else {
            Err(NumberArrayError::BadToken)
        }
    }
}

#[via_fn]
proof fn spec_parse_tokens_decreases(s: Seq<u8>) {
    lemma_find_sep(s);
}

/// The parse of a continuous hex string: two digits per byte, every pair
/// read as `u8::from_str_radix` reads it.
pub open spec fn spec_parse_pairs(s: Seq<u8>) -> Result<Seq<u8>, NumberArrayError> {
    if s.len() % 2 != 0 {
        Err(NumberArrayError::OddDigitCount)
    } else if forall|i: int|
        0 <= i < s.len() / 2 ==> spec_hex_u8_ok(#[trigger] s.subrange(2 * i, 2 * i + 2)) {
        Ok(Seq::new((s.len() / 2) as nat, |i: int| spec_hex_u8_val(s.subrange(2 * i, 2 * i + 2)) as u8))
    } else {
        Err(NumberArrayError::BadToken)
    }
}

/// Repeated brackets stripped from one end.
pub open spec fn spec_strip_leading(s: Seq<u8>, b: u8) -> Seq<u8>
    decreases s.len(),
{
    if s.len() > 0 && s[0] == b {
        spec_strip_leading(s.skip(1), b)
    } else {
        s
    }
}

pub open spec fn spec_strip_trailing(s: Seq<u8>, b: u8) -> Seq<u8>
    decreases s.len(),
{
    if s.len() > 0 && s.last() == b {
        spec_strip_trailing(s.drop_last(), b)
    } else {
        s
    }
}

/// The parse of a whole number-array text: trim, strip surrounding
/// brackets, then read either separated byte tokens or one continuous hex
/// string, depending on whether any separator occurs.
pub open spec fn spec_parse_number_array(text: Seq<u8>) -> Result<Seq<u8>, NumberArrayError> {
    let d = spec_strip_trailing(spec_strip_leading(spec_trim(text), 91), 93);
    if exists|i: int| 0 <= i < d.len() && spec_is_sep(#[trigger] d[i]) {
        spec_parse_tokens(d)
    } else {
        spec_parse_pairs(spec_strip_hex_prefix(d))
    }
}

fn byte_is_sep(c: u8) -> (r: bool)
    ensures
        r == spec_is_sep(c),
{
    crate::textnum::byte_is_ascii_ws(c) || c == 44
}

fn strip_hex_prefix(t: &[u8]) -> (r: Vec<u8>)
    ensures
        r@ == spec_strip_hex_prefix(t@),
{
    if t.len() >= 2 && t[0] == 48 && (t[1] == 120 || t[1] == 88) {
        let mut r: Vec<u8> = Vec::new();
        let mut i: usize = 2;
        while i < t.len()
            invariant
                2 <= i <= t@.len(),
                r@ == t@.subrange(2, i as int),
            decreases t@.len() - i,
        {
            let c = t[i];
            r.push(c);
            proof {
                assert(r@ =~= t@.subrange(2, i + 1));
            }
            i = i + 1;
        }
        proof {
            assert(r@ =~= t@.skip(2));
        }
        r
    } else {
        let mut r: Vec<u8> = Vec::new();
        let mut i: usize = 0;
        while i < t.len()
            invariant
                i <= t@.len(),
                r@ == t@.take(i as int),
            decreases t@.len() - i,
        {
            let c = t[i];
            r.push(c);
            proof {
                assert(r@ =~= t@.take(i + 1));
            }
            i = i + 1;
        }
        proof {
            assert(r@ =~= t@);
        }
        r
    }
}

fn parse_token(t: &[u8]) -> (r: Option<u8>)
    ensures
        r is Some <==> spec_token_ok(t@),
        r matches Some(v) ==> v as nat == spec_token_val(t@),
{
    let stripped = strip_hex_prefix(t);
    crate::textnum::parse_u8_hex(stripped.as_slice())
}

fn find_sep(s: &[u8]) -> (r: Option<usize>)
    ensures
        r matches Some(i) ==> i < s@.len() && spec_find_sep(s@) == i,
        r is None ==> spec_find_sep(s@) < 0,
{
    let mut i: usize = 0;
    while i < s.len()
        invariant
            i <= s@.len(),
            forall|j: int| 0 <= j < i ==> !spec_is_sep(s@[j]),
        decreases s@.len() - i,
    {
        if byte_is_sep(s[i]) {
            proof {
                lemma_find_sep_first(s@, i as int);
            }
            return Some(i);
        }
        i = i + 1;
    }
    proof {
        lemma_find_sep_none(s@);
    }
    None
}

fn parse_tokens(s: &[u8]) -> (r: Result<Vec<u8>, NumberArrayError>)
    ensures
        r matches Ok(v) ==> spec_parse_tokens(s@) == Ok::<Seq<u8>, NumberArrayError>(v@),
        r matches Err(e) ==> spec_parse_tokens(s@) == Err::<Seq<u8>, NumberArrayError>(e),
{
    let mut out: Vec<u8> = Vec::new();
    let n0 = s.len();
    let mut rest: Vec<u8> = crate::recording::copy_range(s, 0, n0);
    proof {
        assert(rest@ =~= s@);
        assert(Seq::<u8>::empty() + (match spec_parse_tokens(rest@) {
            Ok(rr) => rr,
            Err(_) => Seq::<u8>::empty(),
        }) =~= (match spec_parse_tokens(rest@) {
            Ok(rr) => rr,
            Err(_) => Seq::<u8>::empty(),
        }));
    }
    loop
        invariant_except_break
            spec_parse_tokens(s@) == spec_tokens_combine(out@, spec_parse_tokens(rest@)),
        ensures
            spec_parse_tokens(s@) == Ok::<Seq<u8>, NumberArrayError>(out@),
        decreases rest@.len() + 1,
    {
        let rlen = rest.len();
        if rlen == 0 {
            proof {
                assert(spec_find_sep(rest@) < 0);
                assert(spec_parse_tokens(rest@) == Ok::<Seq<u8>, NumberArrayError>(Seq::empty()));
                assert(out@ + Seq::<u8>::empty() =~= out@);
            }
            break ;
        }
        match find_sep(rest.as_slice()) {
            Some(i) => {
                let tok = crate::recording::copy_range(rest.as_slice(), 0, i);
                let newrest = crate::recording::copy_range(rest.as_slice(), i + 1, rlen);
                proof {
                    assert(tok@ =~= rest@.take(i as int));
                    assert(newrest@ =~= rest@.skip(i + 1));
                }
                if tok.len() == 0 {
                    rest = newrest;
                } else {
                    match parse_token(tok.as_slice()) {
                        None => {
                            return Err(NumberArrayError::BadToken);
                        },
                        Some(v) => {
                            proof {
                                let r2 = spec_parse_tokens(newrest@);
                                if r2 is Ok {
                                    assert((out@ + seq![v]) + r2->Ok_0 =~= out@ + (seq![v]
                                        + r2->Ok_0));
                                }
                                assert(out@.push(v) =~= out@ + seq![v]);
                            }
                            out.push(v);
                            rest = newrest;
                        },
                    }
                }
            },
            None => {
                match parse_token(rest.as_slice()) {
                    None => {
                        return Err(NumberArrayError::BadToken);
                    },
                    Some(v) => {
                        proof {
                            assert(spec_parse_tokens(rest@) == Ok::<Seq<u8>, NumberArrayError>(
                                seq![v],
                            ));
                            assert(out@ + seq![v] =~= out@.push(v));
                        }
                        out.push(v);
                        proof {
                            assert(spec_parse_tokens(s@) == Ok::<Seq<u8>, NumberArrayError>(out@));
                        }
                        break ;
                    },
                }
            },
        }
    }
    Ok(out)
}

pub open spec fn spec_tokens_combine(
    prefix: Seq<u8>,
    r: Result<Seq<u8>, NumberArrayError>,
) -> Result<Seq<u8>, NumberArrayError> {
    match r {
        Ok(rest) => Ok(prefix + rest),
        Err(e) => Err(e),
    }
}

fn parse_pairs(s: &[u8]) -> (r: Result<Vec<u8>, NumberArrayError>)
    ensures
        r matches Ok(v) ==> spec_parse_pairs(s@) == Ok::<Seq<u8>, NumberArrayError>(v@),
        r matches Err(e) ==> spec_parse_pairs(s@) == Err::<Seq<u8>, NumberArrayError>(e),
{
    if s.len() % 2 != 0 {
        return Err(NumberArrayError::OddDigitCount);
    }
    let mut v: Vec<u8> = Vec::new();
    let mut i: usize = 0;
    while i + 1 < s.len()
        invariant
            i <= s@.len(),
            i % 2 == 0,
            s@.len() % 2 == 0,
            v@.len() == i / 2,
            forall|k: int|
                0 <= k < i / 2 ==> spec_hex_u8_ok(#[trigger] s@.subrange(2 * k, 2 * k + 2))
                    && v@[k] as nat == spec_hex_u8_val(s@.subrange(2 * k, 2 * k + 2)),
        decreases s@.len() - i,
    {
        let pair = crate::recording::copy_range(s, i, i + 2);
        proof {
            vstd::arithmetic::div_mod::lemma_fundamental_div_mod(i as int, 2);
            assert(pair@ == s@.subrange(2 * ((i as int) / 2), 2 * ((i as int) / 2) + 2));
        }
        match crate::textnum::parse_u8_hex(pair.as_slice()) {
            None => {
                return Err(NumberArrayError::BadToken);
            },
            Some(b) => {
                v.push(b);
            },
        }
        i = i + 2;
    }
    proof {
        assert(i == s@.len());
        assert(spec_parse_pairs(s@) is Ok);
        let expected = spec_parse_pairs(s@)->Ok_0;
        assert(v@ =~= expected);
    }
    Ok(v)
}

/// Reads a report descriptor written down as a hex number array, in any of
/// the accepted spellings.
pub fn parse_number_array(text: &[u8]) -> (r: Result<Vec<u8>, NumberArrayError>)
    ensures
        r matches Ok(v) ==> spec_parse_number_array(text@) == Ok::<Seq<u8>, NumberArrayError>(v@),
        r matches Err(e) ==> spec_parse_number_array(text@) == Err::<Seq<u8>, NumberArrayError>(
            e,
        ),
{
    let trimmed = crate::recording::trim_ascii(text);
    let mut start: usize = 0;
    let mut end: usize = trimmed.len();
    proof {
        assert(trimmed@.skip(0) =~= trimmed@);
    }
    while start < end && trimmed[start] == 91
        invariant
            start <= end <= trimmed@.len(),
            end == trimmed@.len(),
            spec_strip_leading(trimmed@, 91) == spec_strip_leading(
                trimmed@.skip(start as int),
                91,
            ),
        decreases end - start,
    {
        proof {
            assert(trimmed@.skip(start as int).skip(1) =~= trimmed@.skip(start + 1));
        }
        start = start + 1;
    }
    proof {
        assert(spec_strip_leading(trimmed@, 91) == trimmed@.skip(start as int));
    }
    let ghost after_lead = trimmed@.skip(start as int);
    proof {
        assert(after_lead.take(end - start) =~= after_lead);
    }
    while end > start && trimmed[end - 1] == 93
        invariant
            start <= end <= trimmed@.len(),
            after_lead == trimmed@.skip(start as int),
            spec_strip_trailing(after_lead, 93) == spec_strip_trailing(
                after_lead.take(end - start),
                93,
            ),
        decreases end,
    {
        proof {
            let t = after_lead.take(end - start);
            assert(t.last() == trimmed@[end - 1]);
            assert(t.drop_last() =~= after_lead.take(end - 1 - start));
        }
        end = end - 1;
    }
    let data = crate::recording::copy_range(trimmed.as_slice(), start, end);
    proof {
        let t = after_lead.take(end - start);
        if end > start {
            assert(t.last() != 93);
        }
        assert(spec_strip_trailing(t, 93) == t);
        assert(data@ =~= t);
    }
    let mut has_sep = false;
    let mut i: usize = 0;
    while i < data.len()
        invariant
            i <= data@.len(),
            has_sep ==> exists|j: int| 0 <= j < data@.len() && spec_is_sep(#[trigger] data@[j]),
            !has_sep ==> forall|j: int| 0 <= j < i ==> !spec_is_sep(#[trigger] data@[j]),
        decreases data@.len() - i,
    {
        if byte_is_sep(data[i]) {
            has_sep = true;
        }
        i = i + 1;
    }
    if has_sep {
        parse_tokens(data.as_slice())
    } else {
        let stripped = strip_hex_prefix(data.as_slice());
        parse_pairs(stripped.as_slice())
    }
}

/// A report descriptor read from a hex number array, with placeholder
/// identity: such a file names no device.
#[derive(Clone, Debug, PartialEq, Eq)]
pub struct NumberArrayBackend {
    pub name: Vec<u8>,
    pub bustype: u32,
    pub vid: u32,
    pub pid: u32,
    pub rdesc: Vec<u8>,
}

/// The placeholder device name of descriptor-only inputs.
pub open spec fn spec_no_name() -> Seq<u8> {
    seq![78u8, 111u8, 32u8, 78u8, 97u8, 109u8, 101u8]
}

impl NumberArrayBackend {
    /// Reads the backend from the file's text: the parsed descriptor bytes
    /// under the placeholder identity.
    pub fn parse(text: &[u8]) -> (r: Result<NumberArrayBackend, NumberArrayError>)
        ensures
            r is Ok <==> spec_parse_number_array(text@) is Ok,
            r matches Ok(b) ==> {
                &&& b.rdesc@ == spec_parse_number_array(text@)->Ok_0
                &&& b.name@ == spec_no_name()
                &&& b.bustype == 0 && b.vid == 0 && b.pid == 0
            },
            r matches Err(e) ==> spec_parse_number_array(text@) == Err::<
                Seq<u8>,
                NumberArrayError,
            >(e),
    {
        match parse_number_array(text) {
            Err(e) => Err(e),
            Ok(rdesc) => {
                let mut name: Vec<u8> = Vec::new();
                name.push(78);
                name.push(111);
                name.push(32);
                name.push(78);
                name.push(97);
                name.push(109);
                name.push(101);
                proof {
                    assert(name@ =~= spec_no_name());
                }
                Ok(NumberArrayBackend { name, bustype: 0, vid: 0, pid: 0, rdesc })
            },
        }
    }

    pub fn name(&self) -> (r: &Vec<u8>)
        ensures
            r@ == self.name@,
    {
        &self.name
    }

    pub fn bustype(&self) -> (r: u32)
        ensures
            r == self.bustype,
    {
        self.bustype
    }

    pub fn vid(&self) -> (r: u32)
        ensures
            r == self.vid,
    {
        self.vid
    }

    pub fn pid(&self) -> (r: u32)
        ensures
            r == self.pid,
    {
        self.pid
    }

    pub fn rdesc(&self) -> (r: &Vec<u8>)
        ensures
            r@ == self.rdesc@,
    {
        &self.rdesc
    }

    pub fn event_nodes(&self) -> (r: &[EventNode])
        ensures
            r@.len() == 0,
    {
        &[]
    }
}

} // verus!

//! The textual codec: records and wire messages as self-delimiting JSON
//! objects over character sequences.

use vstd::prelude::*;

verus! {

use crate::command::CommandRequest;
use crate::command::CommandResponse;
use crate::command::RequestV;
use crate::command::ResponseV;
use crate::log::Command;
use crate::log::CommandV;
use vstd::string::StrSliceExecFns;

/// The sixteen hexadecimal digits, lower case.
pub open spec fn hex_digit(n: int) -> char {
    if n == 0 { '0' }
    else if n == 1 { '1' }
    else if n == 2 { '2' }
    else if n == 3 { '3' }
    else if n == 4 { '4' }
    else if n == 5 { '5' }
    else if n == 6 { '6' }
    else if n == 7 { '7' }
    else if n == 8 { '8' }
    else if n == 9 { '9' }
    else if n == 10 { 'a' }
    else if n == 11 { 'b' }
    else if n == 12 { 'c' }
    else if n == 13 { 'd' }
    else if n == 14 { 'e' }
    else { 'f' }
}

/// The value of a lower-case hexadecimal digit, or -1.
pub open spec fn hex_val(c: char) -> int {
    if c == '0' { 0 }
    else if c == '1' { 1 }
    else if c == '2' { 2 }
    else if c == '3' { 3 }
    else if c == '4' { 4 }
    else if c == '5' { 5 }
    else if c == '6' { 6 }
    else if c == '7' { 7 }
    else if c == '8' { 8 }
    else if c == '9' { 9 }
    else if c == 'a' { 10 }
    else if c == 'b' { 11 }
    else if c == 'c' { 12 }
    else if c == 'd' { 13 }
    else if c == 'e' { 14 }
    else if c == 'f' { 15 }
    else { -1 }
}

/// How one character appears inside a JSON string literal: quotes and
/// backslashes are escaped, control characters become `\u00XX`, everything
/// else stands for itself.
pub open spec fn escape_char(c: char) -> Seq<char> {
    if c == '"' {
        seq!['\\', '"']
    } else if c == '\\' {
        seq!['\\', '\\']
    } else if (c as u32) < 32 {
        seq!['\\', 'u', '0', '0', hex_digit((c as u32) as int / 16), hex_digit((c as u32) as int % 16)]
    } else {
        seq![c]
    }
}

/// A whole string, escaped character by character.
pub open spec fn escape_str(s: Seq<char>) -> Seq<char>
    decreases s.len(),
{
    if s.len() == 0 {
        Seq::empty()
    } else {
        escape_char(s[0]) + escape_str(s.skip(1))
    }
}

/// Escaping distributes over concatenation.
pub proof fn lemma_escape_str_add(a: Seq<char>, b: Seq<char>)
    ensures
        escape_str(a + b) == escape_str(a) + escape_str(b),
    decreases a.len(),
{
    if a.len() == 0 {
        assert(a + b =~= b);
        assert(escape_str(a) + escape_str(b) =~= escape_str(b));
    } else {
        lemma_escape_str_add(a.skip(1), b);
        assert((a + b).skip(1) =~= a.skip(1) + b);
        assert(escape_char(a[0]) + (escape_str(a.skip(1)) + escape_str(b)) =~= (escape_char(a[0])
            + escape_str(a.skip(1))) + escape_str(b));
    }
}

/// Escaping one more character appends its escape.
pub proof fn lemma_escape_str_snoc(s: Seq<char>, i: int)
    requires
        0 <= i < s.len(),
    ensures
        escape_str(s.take(i + 1)) == escape_str(s.take(i)) + escape_char(s[i]),
{
    assert(s.take(i + 1) =~= s.take(i) + seq![s[i]]);
    lemma_escape_str_add(s.take(i), seq![s[i]]);
    let single = seq![s[i]];
    assert(single.skip(1) =~= Seq::<char>::empty());
    assert(escape_str(single) == escape_char(single[0]) + escape_str(single.skip(1)));
    assert(escape_char(s[i]) + Seq::<char>::empty() =~= escape_char(s[i]));
}

/// A character with a code below 32, recovered from that code.
proof fn lemma_low_code_char(c: char, v: int)
    requires
        v == c as u32,
        v < 32,
    ensures
        ((v as u8) as char) == c,
{
}

/// What a simple backslash escape stands for, if `c` is one.
pub open spec fn unescape_simple(c: char) -> Option<char> {
    if c == '"' { Some('"') }
    else if c == '\\' { Some('\\') }
    else if c == '/' { Some('/') }
    else if c == 'n' { Some('\n') }
    else if c == 't' { Some('\t') }
    else if c == 'r' { Some('\r') }
    else if c == 'b' { Some('\u{0008}') }
    else if c == 'f' { Some('\u{000C}') }
    else { None }
}

/// Reads one JSON string body up to and including the closing quote.
///
/// On success, yields the characters the literal stands for and how many
/// characters of `s` were consumed.
pub open spec fn parse_string_body(s: Seq<char>) -> Option<(Seq<char>, int)>
    decreases s.len(),
{
    if s.len() == 0 {
        None
    } else if s[0] == '"' {
        Some((Seq::empty(), 1))
    } else if s[0] == '\\' {
        if s.len() < 2 {
            None
        } else if unescape_simple(s[1]) is Some {
            match parse_string_body(s.skip(2)) {
                Some((t, n)) => Some((seq![unescape_simple(s[1])->0] + t, 2 + n)),
                None => None,
            }
        } else if s[1] == 'u' {
            if s.len() < 6 {
                None
            } else if s[2] == '0' && s[3] == '0' && hex_val(s[4]) >= 0 && hex_val(s[5]) >= 0 {
                let v = hex_val(s[4]) * 16 + hex_val(s[5]);
                match parse_string_body(s.skip(6)) {
                    Some((t, n)) => Some((seq![(v as u8) as char] + t, 6 + n)),
                    None => None,
                }
            } else {
                None
            }
        } else {
            None
        }
    } else if (s[0] as u32) < 32 {
        None
    } else {
        match parse_string_body(s.skip(1)) {
            Some((t, n)) => Some((seq![s[0]] + t, 1 + n)),
            None => None,
        }
    }
}

/// A successful string parse consumes at least one and at most all
/// characters.
pub proof fn lemma_parse_string_body_progress(s: Seq<char>)
    ensures
        parse_string_body(s) matches Some(r) ==> 1 <= r.1 <= s.len(),
    decreases s.len(),
{
    if s.len() == 0 {
    } else if s[0] == '"' {
    } else if s[0] == '\\' {
        if s.len() >= 2 {
            lemma_parse_string_body_progress(s.skip(2));
            if s.len() >= 6 {
                lemma_parse_string_body_progress(s.skip(6));
            }
        }
    } else {
        lemma_parse_string_body_progress(s.skip(1));
    }
}

/// Round trip of the string literal form: an escaped string followed by its
/// closing quote parses back to the string, whatever follows.
pub proof fn lemma_parse_escaped(x: Seq<char>, rest: Seq<char>)
    ensures
        parse_string_body(escape_str(x) + seq!['"'] + rest) == Some::<(Seq<char>, int)>((
            x,
            escape_str(x).len() as int + 1,
        )),
    decreases x.len(),
{
    let s = escape_str(x) + seq!['"'] + rest;
    if x.len() == 0 {
        assert(s[0] == '"');
        assert(x =~= Seq::<char>::empty());
    } else {
        let c = x[0];
        let tail = x.skip(1);
        lemma_parse_escaped(tail, rest);
        let t = escape_str(tail) + seq!['"'] + rest;
        assert(escape_str(x) == escape_char(c) + escape_str(tail));
        if c == '"' || c == '\\' {
            assert(s.len() >= 2);
            assert(s[0] == '\\');
            assert(s[1] == c);
            assert(unescape_simple(s[1]) == Some(c));
            assert(s.skip(2) =~= t);
            assert(seq![c] + tail =~= x);
        } else if (c as u32) < 32 {
            let hi = (c as u32) as int / 16;
            let lo = (c as u32) as int % 16;
            assert(s.len() >= 6);
            assert(s[0] == '\\');
            assert(s[1] == 'u');
            assert(unescape_simple('u') is None);
            assert(s[2] == '0' && s[3] == '0');
            assert(s[4] == hex_digit(hi) && s[5] == hex_digit(lo));
            assert(hex_val(hex_digit(hi)) == hi);
            assert(hex_val(hex_digit(lo)) == lo);
            let v = hex_val(s[4]) * 16 + hex_val(s[5]);
            assert(v == c as u32) by {
                assert(hi * 16 + lo == c as u32);
            };
            lemma_low_code_char(c, v);
            assert(s.skip(6) =~= t);
            assert(seq![c] + tail =~= x);
        } else {
            assert(s[0] == c);
            assert(s.skip(1) =~= t);
            assert(seq![c] + tail =~= x);
        }
    }
}

/// The opening of an encoded `Set` record, up to the key's opening quote.
pub open spec fn lit_set_prefix() -> Seq<char> {
    seq!['{', '"', 'S', 'e', 't', '"', ':', '{', '"', 'k', 'e', 'y', '"', ':', '"']
}

/// The opening of an encoded `Remove` record, up to the key's opening quote.
pub open spec fn lit_remove_prefix() -> Seq<char> {
    seq!['{', '"', 'R', 'e', 'm', 'o', 'v', 'e', '"', ':', '{', '"', 'k', 'e', 'y', '"', ':', '"']
}

/// Between the key and the value of a `Set`: `,"value":"`.
pub open spec fn lit_value_sep() -> Seq<char> {
    seq![',', '"', 'v', 'a', 'l', 'u', 'e', '"', ':', '"']
}

/// The two closing braces of a record.
pub open spec fn lit_close() -> Seq<char> {
    seq!['}', '}']
}

/// A record, encoded as a self-delimiting JSON object.
pub open spec fn encode_command(c: CommandV) -> Seq<char> {
    match c {
        CommandV::Put { key, value } => lit_set_prefix() + escape_str(key) + seq!['"']
            + lit_value_sep() + escape_str(value) + seq!['"'] + lit_close(),
        CommandV::Remove { key } => lit_remove_prefix() + escape_str(key) + seq!['"']
            + lit_close(),
    }
}

/// Reads one record off the front of `s`: the record and how many characters
/// it occupied, or nothing when `s` does not begin with a record.
pub open spec fn parse_command(s: Seq<char>) -> Option<(CommandV, int)> {
    if lit_set_prefix().is_prefix_of(s) {
        match parse_string_body(s.skip(15)) {
            Some((k, n1)) => {
                let p = 15 + n1;
                if p <= s.len() && lit_value_sep().is_prefix_of(s.skip(p)) {
                    match parse_string_body(s.skip(p + 10)) {
                        Some((v, n2)) => {
                            let q = p + 10 + n2;
                            if q <= s.len() && lit_close().is_prefix_of(s.skip(q)) {
                                Some((CommandV::Put { key: k, value: v }, q + 2))
                            } else {
                                None
                            }
                        },
                        None => None,
                    }
                } else {
                    None
                }
            },
            None => None,
        }
    } else if lit_remove_prefix().is_prefix_of(s) {
        match parse_string_body(s.skip(18)) {
            Some((k, n1)) => {
                let p = 18 + n1;
                if p <= s.len() && lit_close().is_prefix_of(s.skip(p)) {
                    Some((CommandV::Remove { key: k }, p + 2))
                } else {
                    None
                }
            },
            None => None,
        }
    } else {
        None
    }
}

/// A successful record parse consumes at least one and at most all
/// characters.
pub proof fn lemma_parse_command_progress(s: Seq<char>)
    ensures
        parse_command(s) matches Some(r) ==> 1 <= r.1 <= s.len(),
{
    if lit_set_prefix().is_prefix_of(s) {
        lemma_parse_string_body_progress(s.skip(15));
        match parse_string_body(s.skip(15)) {
            Some((k, n1)) => {
                let p = 15 + n1;
                if p <= s.len() && lit_value_sep().is_prefix_of(s.skip(p)) {
                    lemma_parse_string_body_progress(s.skip(p + 10));
                    match parse_string_body(s.skip(p + 10)) {
                        Some((v, n2)) => {
                            let q = p + 10 + n2;
                            if q <= s.len() && lit_close().is_prefix_of(s.skip(q)) {
                                assert(s.skip(q).len() >= 2);
                            }
                        },
                        None => {},
                    }
                }
            },
            None => {},
        }
    } else if lit_remove_prefix().is_prefix_of(s) {
        lemma_parse_string_body_progress(s.skip(18));
        match parse_string_body(s.skip(18)) {
            Some((k, n1)) => {
                let p = 18 + n1;
                if p <= s.len() && lit_close().is_prefix_of(s.skip(p)) {
                    assert(s.skip(p).len() >= 2);
                }
            },
            None => {},
        }
    }
}

/// Round trip of an encoded `Set` record.
#[verifier::rlimit(60)]
proof fn lemma_parse_encode_command_put(c: CommandV, rest: Seq<char>)
    requires
        c is Put,
    ensures
        parse_command(encode_command(c) + rest) == Some::<(CommandV, int)>((
            c,
            encode_command(c).len() as int,
        )),
{
    let e = encode_command(c);
    let s = e + rest;
    match c {
        CommandV::Put { key, value } => {
            let tail1 = lit_value_sep() + escape_str(value) + seq!['"'] + lit_close() + rest;
            assert(lit_set_prefix().is_prefix_of(s)) by {
                assert(s.subrange(0, 15) =~= lit_set_prefix());
            };
            assert(s.skip(15) =~= escape_str(key) + seq!['"'] + tail1);
            lemma_parse_escaped(key, tail1);
            let n1 = escape_str(key).len() as int + 1;
            let p = 15 + n1;
            assert(p <= s.len());
            assert(s.skip(p) =~= tail1);
            assert(lit_value_sep().is_prefix_of(s.skip(p))) by {
                assert(s.skip(p).subrange(0, 10) =~= lit_value_sep());
            };
            let tail2 = lit_close() + rest;
            assert(s.skip(p + 10) =~= escape_str(value) + seq!['"'] + tail2);
            lemma_parse_escaped(value, tail2);
            let n2 = escape_str(value).len() as int + 1;
            let q = p + 10 + n2;
            assert(q <= s.len());
            assert(s.skip(q) =~= tail2);
            assert(lit_close().is_prefix_of(s.skip(q))) by {
                assert(s.skip(q).subrange(0, 2) =~= lit_close());
            };
            assert(q + 2 == e.len());
        },
        CommandV::Remove { key } => {},
    }
}

/// Round trip of an encoded `Remove` record.
#[verifier::rlimit(60)]
proof fn lemma_parse_encode_command_remove(c: CommandV, rest: Seq<char>)
    requires
        c is Remove,
    ensures
        parse_command(encode_command(c) + rest) == Some::<(CommandV, int)>((
            c,
            encode_command(c).len() as int,
        )),
{
    let e = encode_command(c);
    let s = e + rest;
    match c {
        CommandV::Put { key, value } => {},
        CommandV::Remove { key } => {
            assert(!lit_set_prefix().is_prefix_of(s)) by {
                assert(s[2] == 'R');
                if lit_set_prefix().is_prefix_of(s) {
                    assert(s.subrange(0, 15)[2] == s[2]);
                }
            };
            assert(lit_remove_prefix().is_prefix_of(s)) by {
                assert(s.subrange(0, 18) =~= lit_remove_prefix());
            };
            let tail1 = lit_close() + rest;
            assert(s.skip(18) =~= escape_str(key) + seq!['"'] + tail1);
            lemma_parse_escaped(key, tail1);
            let n1 = escape_str(key).len() as int + 1;
            let p = 18 + n1;
            assert(p <= s.len());
            assert(s.skip(p) =~= tail1);
            assert(lit_close().is_prefix_of(s.skip(p))) by {
                assert(s.skip(p).subrange(0, 2) =~= lit_close());
            };
            assert(p + 2 == e.len());
        },
    }
}

/// Round trip of the record codec: an encoded record parses back to itself,
/// whatever follows it.
pub proof fn lemma_parse_encode_command(c: CommandV, rest: Seq<char>)
    ensures
        parse_command(encode_command(c) + rest) == Some::<(CommandV, int)>((
            c,
            encode_command(c).len() as int,
        )),
{
    match c {
        CommandV::Put { .. } => lemma_parse_encode_command_put(c, rest),
        CommandV::Remove { .. } => lemma_parse_encode_command_remove(c, rest),
    }
}


/// Relies on `String::push`: appends exactly the given character.
#[verifier::external_body]
fn string_push(s: &mut String, c: char)
    ensures
        final(s)@ == old(s)@ + seq![c],
{
    s.push(c);
}

/// Builds the owned string these characters spell.
pub fn chars_to_string(v: &Vec<char>) -> (r: String)
    ensures
        r@ == v@,
{
    let mut r = String::new();
    let mut i: usize = 0;
    while i < v.len()
        invariant
            i <= v@.len(),
            r@ == v@.take(i as int),
        decreases v@.len() - i,
    {
        string_push(&mut r, v[i]);
        proof {
            assert(v@.take(i + 1) =~= v@.take(i as int) + seq![v@[i as int]]);
        }
        i = i + 1;
    }
    proof {
        assert(v@.take(v@.len() as int) =~= v@);
    }
    r
}

/// The hexadecimal digit for `n`.
pub(crate) fn hex_digit_exec(n: u8) -> (r: char)
    requires
        n < 16,
    ensures
        r == hex_digit(n as int),
{
    match n {
        0 => '0',
        1 => '1',
        2 => '2',
        3 => '3',
        4 => '4',
        5 => '5',
        6 => '6',
        7 => '7',
        8 => '8',
        9 => '9',
        10 => 'a',
        11 => 'b',
        12 => 'c',
        13 => 'd',
        14 => 'e',
        _ => 'f',
    }
}

/// The value of a lower-case hexadecimal digit.
fn hex_val_exec(c: char) -> (r: Option<u8>)
    ensures
        match r {
            Some(x) => hex_val(c) == x as int && x < 16,
            None => hex_val(c) == -1,
        },
{
    match c {
        '0' => Some(0),
        '1' => Some(1),
        '2' => Some(2),
        '3' => Some(3),
        '4' => Some(4),
        '5' => Some(5),
        '6' => Some(6),
        '7' => Some(7),
        '8' => Some(8),
        '9' => Some(9),
        'a' => Some(10),
        'b' => Some(11),
        'c' => Some(12),
        'd' => Some(13),
        'e' => Some(14),
        'f' => Some(15),
        _ => None,
    }
}

/// What a simple backslash escape stands for.
fn unescape_simple_exec(c: char) -> (r: Option<char>)
    ensures
        r == unescape_simple(c),
{
    match c {
        '"' => Some('"'),
        '\\' => Some('\\'),
        '/' => Some('/'),
        'n' => Some('\n'),
        't' => Some('\t'),
        'r' => Some('\r'),
        'b' => Some('\u{0008}'),
        'f' => Some('\u{000C}'),
        _ => None,
    }
}

/// Appends the escape of one character.
fn push_escaped(out: &mut Vec<char>, c: char)
    ensures
        final(out)@ == old(out)@ + escape_char(c),
{
    if c == '"' {
        out.push('\\');
        out.push('"');
        proof {
            assert(out@ =~= old(out)@ + escape_char(c));
        }
    } else if c == '\\' {
        out.push('\\');
        out.push('\\');
        proof {
            assert(out@ =~= old(out)@ + escape_char(c));
        }
    } else if (c as u32) < 32 {
        let v = c as u32;
        out.push('\\');
        out.push('u');
        out.push('0');
        out.push('0');
        out.push(hex_digit_exec((v / 16) as u8));
        out.push(hex_digit_exec((v % 16) as u8));
        proof {
            assert(out@ =~= old(out)@ + escape_char(c));
        }
    } else {
        out.push(c);
        proof {
            assert(out@ =~= old(out)@ + escape_char(c));
        }
    }
}

/// Appends the whole escaped form of `s`.
fn escape_into(out: &mut Vec<char>, s: &str)
    ensures
        final(out)@ == old(out)@ + escape_str(s@),
{
    let n = s.unicode_len();
    let mut i: usize = 0;
    while i < n
        invariant
            n == s@.len(),
            i <= n,
            out@ == old(out)@ + escape_str(s@.take(i as int)),
        decreases n - i,
    {
        let c = s.get_char(i);
        push_escaped(out, c);
        proof {
            lemma_escape_str_snoc(s@, i as int);
        }
        i = i + 1;
    }
    proof {
        assert(s@.take(n as int) =~= s@);
    }
}

/// How a partial parse combines with what the rest of the input yields.
pub open spec fn shift_parse(acc: Seq<char>, k: int, r: Option<(Seq<char>, int)>) -> Option<
    (Seq<char>, int),
> {
    match r {
        Some((t, n)) => Some((acc + t, k + n)),
        None => None,
    }
}

/// Reads one string literal body starting at `start`, returning its
/// characters and how many input characters it occupied.
fn parse_string_body_exec(s: &Vec<char>, start: usize) -> (r: Option<(Vec<char>, usize)>)
    requires
        start <= s@.len(),
    ensures
        match r {
            Some(p) => parse_string_body(s@.skip(start as int)) == Some((p.0@, p.1 as int))
                && 1 <= p.1 <= s@.len() - start,
            None => parse_string_body(s@.skip(start as int)) is None,
        },
{
    let ghost whole = s@.skip(start as int);
    let mut acc: Vec<char> = Vec::new();
    let mut pos: usize = start;
    loop
        invariant
            start <= pos <= s@.len(),
            shift_parse(acc@, pos - start, parse_string_body(s@.skip(pos as int)))
                == parse_string_body(whole),
            whole == s@.skip(start as int),
        decreases s@.len() - pos,
    {
        let ghost rest = s@.skip(pos as int);
        if pos >= s.len() {
            return None;
        }
        let c = s[pos];
        assert(rest[0] == c);
        if c == '"' {
            proof {
                assert(acc@ + Seq::<char>::empty() =~= acc@);
            }
            return Some((acc, pos + 1 - start));
        }
        if c == '\\' {
            if pos + 1 >= s.len() {
                return None;
            }
            let e = s[pos + 1];
            assert(rest[1] == e);
            match unescape_simple_exec(e) {
                Some(u) => {
                    let ghost acc0 = acc@;
                    acc.push(u);
                    pos = pos + 2;
                    proof {
                        assert(s@.skip(pos as int) =~= rest.skip(2));
                        assert(acc@ =~= acc0 + seq![u]);
                        match parse_string_body(s@.skip(pos as int)) {
                            Some((t, n)) => {
                                assert(acc0 + (seq![u] + t) =~= (acc0 + seq![u]) + t);
                            },
                            None => {},
                        }
                    }
                },
                None => {
                    if e != 'u' {
                        return None;
                    }
                    if s.len() - pos < 6 {
                        return None;
                    }
                    assert(rest[2] == s@[pos + 2] && rest[3] == s@[pos + 3] && rest[4] == s@[pos
                        + 4] && rest[5] == s@[pos + 5]);
                    if !(s[pos + 2] == '0' && s[pos + 3] == '0') {
                        return None;
                    }
                    let hi = match hex_val_exec(s[pos + 4]) {
                        Some(x) => x,
                        None => {
                            return None;
                        },
                    };
                    let lo = match hex_val_exec(s[pos + 5]) {
                        Some(x) => x,
                        None => {
                            return None;
                        },
                    };
                    let v: u8 = hi * 16 + lo;
                    let ghost w = hex_val(rest[4]) * 16 + hex_val(rest[5]);
                    let ghost acc0 = acc@;
                    acc.push(v as char);
                    pos = pos + 6;
                    proof {
                        assert(w == v as int);
                        assert(s@.skip(pos as int) =~= rest.skip(6));
                        assert(acc@ =~= acc0 + seq![(w as u8) as char]);
                        match parse_string_body(s@.skip(pos as int)) {
                            Some((t, n)) => {
                                assert(acc0 + (seq![(w as u8) as char] + t) =~= (acc0 + seq![(w
                                    as u8) as char]) + t);
                            },
                            None => {},
                        }
                    }
                },
            }
        } else if (c as u32) < 32 {
            return None;
        } else {
            let ghost acc0 = acc@;
            acc.push(c);
            pos = pos + 1;
            proof {
                assert(s@.skip(pos as int) =~= rest.skip(1));
                assert(acc@ =~= acc0 + seq![c]);
                match parse_string_body(s@.skip(pos as int)) {
                    Some((t, n)) => {
                        assert(acc0 + (seq![c] + t) =~= (acc0 + seq![c]) + t);
                    },
                    None => {},
                }
            }
        }
        proof {
            lemma_parse_string_body_progress(s@.skip(pos as int));
        }
    }
}


/// Whether `pat` occurs in `s` at `pos`.
fn matches_at(s: &Vec<char>, pos: usize, pat: &Vec<char>) -> (r: bool)
    requires
        pos <= s@.len(),
    ensures
        r == pat@.is_prefix_of(s@.skip(pos as int)),
{
    if s.len() - pos < pat.len() {
        return false;
    }
    let mut i: usize = 0;
    while i < pat.len()
        invariant
            pos <= s@.len(),
            s@.len() <= usize::MAX,
            pat@.len() <= s@.len() - pos,
            i <= pat@.len(),
            forall|j: int| 0 <= j < i ==> s@.skip(pos as int)[j] == pat@[j],
        decreases pat@.len() - i,
    {
        if s[pos + i] != pat[i] {
            assert(s@.skip(pos as int)[i as int] != pat@[i as int]);
            return false;
        }
        i = i + 1;
    }
    proof {
        assert(pat@ =~= s@.skip(pos as int).subrange(0, pat@.len() as int));
    }
    true
}

/// The opening of an encoded `Set` record, as characters.
fn lit_set_prefix_exec() -> (r: Vec<char>)
    ensures
        r@ == lit_set_prefix(),
{
    let r = vec!['{', '"', 'S', 'e', 't', '"', ':', '{', '"', 'k', 'e', 'y', '"', ':', '"'];
    proof {
        assert(r@ =~= lit_set_prefix());
    }
    r
}

/// The opening of an encoded `Remove` record, as characters.
fn lit_remove_prefix_exec() -> (r: Vec<char>)
    ensures
        r@ == lit_remove_prefix(),
{
    let r = vec!['{', '"', 'R', 'e', 'm', 'o', 'v', 'e', '"', ':', '{', '"', 'k', 'e', 'y', '"',
        ':', '"'];
    proof {
        assert(r@ =~= lit_remove_prefix());
    }
    r
}

/// The separator between key and value, as characters.
fn lit_value_sep_exec() -> (r: Vec<char>)
    ensures
        r@ == lit_value_sep(),
{
    let r = vec![',', '"', 'v', 'a', 'l', 'u', 'e', '"', ':', '"'];
    proof {
        assert(r@ =~= lit_value_sep());
    }
    r
}

/// The two closing braces, as characters.
fn lit_close_exec() -> (r: Vec<char>)
    ensures
        r@ == lit_close(),
{
    let r = vec!['}', '}'];
    proof {
        assert(r@ =~= lit_close());
    }
    r
}

/// Encodes one record.
pub fn encode_command_exec(c: &Command) -> (r: Vec<char>)
    ensures
        r@ == encode_command(c@),
{
    match c {
        Command::Put { key, value } => {
            let mut out = lit_set_prefix_exec();
            escape_into(&mut out, key.as_str());
            out.push('"');
            let sep = lit_value_sep_exec();
            out.extend_from_slice(sep.as_slice());
            escape_into(&mut out, value.as_str());
            out.push('"');
            out.push('}');
            out.push('}');
            proof {
                assert(out@ =~= encode_command(c@));
            }
            out
        },
        Command::Remove { key } => {
            let mut out = lit_remove_prefix_exec();
            escape_into(&mut out, key.as_str());
            out.push('"');
            out.push('}');
            out.push('}');
            proof {
                assert(out@ =~= encode_command(c@));
            }
            out
        },
    }
}

/// Reads one record starting at `pos`: the record and how many characters it
/// occupied, or nothing when no record starts there.
pub fn parse_command_exec(s: &Vec<char>, pos: usize) -> (r: Option<(Command, usize)>)
    requires
        pos <= s@.len(),
    ensures
        match r {
            Some(p) => parse_command(s@.skip(pos as int)) == Some((p.0@, p.1 as int)) && 1 <= p.1
                <= s@.len() - pos,
            None => parse_command(s@.skip(pos as int)) is None,
        },
{
    // Reading the length here pins s@.len() <= usize::MAX for the offset
    // arithmetic below.
    let slen = s.len();
    let ghost whole = s@.skip(pos as int);
    let setp = lit_set_prefix_exec();
    let remp = lit_remove_prefix_exec();
    if matches_at(s, pos, &setp) {
        assert(whole.len() >= 15);
        match parse_string_body_exec(s, pos + 15) {
            Some((k, n1)) => {
                proof {
                    assert(s@.skip(pos + 15) =~= whole.skip(15));
                }
                let p = pos + 15 + n1;
                let sep = lit_value_sep_exec();
                if matches_at(s, p, &sep) {
                    proof {
                        assert(s@.skip(p as int) =~= whole.skip(15 + n1));
                    }
                    assert(whole.skip(15 + n1).len() >= 10);
                    match parse_string_body_exec(s, p + 10) {
                        Some((v, n2)) => {
                            proof {
                                assert(s@.skip(p + 10) =~= whole.skip(15 + n1 + 10));
                            }
                            let q = p + 10 + n2;
                            let close = lit_close_exec();
                            if matches_at(s, q, &close) {
                                proof {
                                    assert(s@.skip(q as int) =~= whole.skip(15 + n1 + 10 + n2));
                                }
                                let cmd = Command::Put {
                                    key: chars_to_string(&k),
                                    value: chars_to_string(&v),
                                };
                                Some((cmd, q + 2 - pos))
                            } else {
                                proof {
                                    assert(s@.skip(q as int) =~= whole.skip(15 + n1 + 10 + n2));
                                }
                                None
                            }
                        },
                        None => {
                            proof {
                                assert(s@.skip(p + 10) =~= whole.skip(15 + n1 + 10));
                            }
                            None
                        },
                    }
                } else {
                    proof {
                        assert(s@.skip(p as int) =~= whole.skip(15 + n1));
                    }
                    None
                }
            },
            None => {
                proof {
                    assert(s@.skip(pos + 15) =~= whole.skip(15));
                }
                None
            },
        }
    } else if matches_at(s, pos, &remp) {
        assert(whole.len() >= 18);
        match parse_string_body_exec(s, pos + 18) {
            Some((k, n1)) => {
                proof {
                    assert(s@.skip(pos + 18) =~= whole.skip(18));
                }
                let p = pos + 18 + n1;
                let close = lit_close_exec();
                if matches_at(s, p, &close) {
                    proof {
                        assert(s@.skip(p as int) =~= whole.skip(18 + n1));
                    }
                    let cmd = Command::Remove { key: chars_to_string(&k) };
                    Some((cmd, p + 2 - pos))
                } else {
                    proof {
                        assert(s@.skip(p as int) =~= whole.skip(18 + n1));
                    }
                    None
                }
            },
            None => {
                proof {
                    assert(s@.skip(pos + 18) =~= whole.skip(18));
                }
                None
            },
        }
    } else {
        None
    }
}


/// The opening of an encoded `Get` request, up to the key's opening quote.
pub open spec fn lit_get_prefix() -> Seq<char> {
    seq!['{', '"', 'G', 'e', 't', '"', ':', '{', '"', 'k', 'e', 'y', '"', ':', '"']
}

/// An encoded `Success` response.
pub open spec fn lit_success() -> Seq<char> {
    seq!['{', '"', 'S', 'u', 'c', 'c', 'e', 's', 's', '"', ':', '{', '}', '}']
}

/// An encoded `KeyNotFound` response.
pub open spec fn lit_key_not_found() -> Seq<char> {
    seq!['{', '"', 'K', 'e', 'y', 'N', 'o', 't', 'F', 'o', 'u', 'n', 'd', '"', ':', '{', '}', '}']
}

/// The opening of an encoded `Error` response, up to the reason's opening
/// quote.
pub open spec fn lit_error_prefix() -> Seq<char> {
    seq!['{', '"', 'E', 'r', 'r', 'o', 'r', '"', ':', '{', '"', 'r', 'e', 'a', 's', 'o', 'n', '"',
        ':', '"']
}

/// The opening of an encoded `Value` response, up to (not including) the
/// value itself.
pub open spec fn lit_value_prefix() -> Seq<char> {
    seq!['{', '"', 'V', 'a', 'l', 'u', 'e', '"', ':', '{', '"', 'v', 'a', 'l', 'u', 'e', '"', ':']
}

/// The tail of a `Value` response that carries no value.
pub open spec fn lit_null_close() -> Seq<char> {
    seq!['n', 'u', 'l', 'l', '}', '}']
}

/// A request, encoded as a self-delimiting JSON object.
pub open spec fn encode_request(r: RequestV) -> Seq<char> {
    match r {
        RequestV::Put { key, value } => lit_set_prefix() + escape_str(key) + seq!['"']
            + lit_value_sep() + escape_str(value) + seq!['"'] + lit_close(),
        RequestV::Remove { key } => lit_remove_prefix() + escape_str(key) + seq!['"']
            + lit_close(),
        RequestV::Get { key } => lit_get_prefix() + escape_str(key) + seq!['"'] + lit_close(),
    }
}

/// Reads one request off the front of `s`.
pub open spec fn parse_request(s: Seq<char>) -> Option<(RequestV, int)> {
    if lit_set_prefix().is_prefix_of(s) {
        match parse_string_body(s.skip(15)) {
            Some((k, n1)) => {
                let p = 15 + n1;
                if p <= s.len() && lit_value_sep().is_prefix_of(s.skip(p)) {
                    match parse_string_body(s.skip(p + 10)) {
                        Some((v, n2)) => {
                            let q = p + 10 + n2;
                            if q <= s.len() && lit_close().is_prefix_of(s.skip(q)) {
                                Some((RequestV::Put { key: k, value: v }, q + 2))
                            } else {
                                None
                            }
                        },
                        None => None,
                    }
                } else {
                    None
                }
            },
            None => None,
        }
    } else if lit_remove_prefix().is_prefix_of(s) {
        match parse_string_body(s.skip(18)) {
            Some((k, n1)) => {
                let p = 18 + n1;
                if p <= s.len() && lit_close().is_prefix_of(s.skip(p)) {
                    Some((RequestV::Remove { key: k }, p + 2))
                } else {
                    None
                }
            },
            None => None,
        }
    } else if lit_get_prefix().is_prefix_of(s) {
        match parse_string_body(s.skip(15)) {
            Some((k, n1)) => {
                let p = 15 + n1;
                if p <= s.len() && lit_close().is_prefix_of(s.skip(p)) {
                    Some((RequestV::Get { key: k }, p + 2))
                } else {
                    None
                }
            },
            None => None,
        }
    } else {
        None
    }
}

/// A response, encoded as a self-delimiting JSON object.
pub open spec fn encode_response(r: ResponseV) -> Seq<char> {
    match r {
        ResponseV::Success => lit_success(),
        ResponseV::KeyNotFound => lit_key_not_found(),
        ResponseV::Error { reason } => lit_error_prefix() + escape_str(reason) + seq!['"']
            + lit_close(),
        ResponseV::Value { value } => match value {
            Some(v) => lit_value_prefix() + seq!['"'] + escape_str(v) + seq!['"'] + lit_close(),
            None => lit_value_prefix() + lit_null_close(),
        },
    }
}

/// Reads one response off the front of `s`.
pub open spec fn parse_response(s: Seq<char>) -> Option<(ResponseV, int)> {
    if lit_success().is_prefix_of(s) {
        Some((ResponseV::Success, 14))
    } else if lit_key_not_found().is_prefix_of(s) {
        Some((ResponseV::KeyNotFound, 18))
    } else if lit_error_prefix().is_prefix_of(s) {
        match parse_string_body(s.skip(20)) {
            Some((x, n1)) => {
                let p = 20 + n1;
                if p <= s.len() && lit_close().is_prefix_of(s.skip(p)) {
                    Some((ResponseV::Error { reason: x }, p + 2))
                } else {
                    None
                }
            },
            None => None,
        }
    } else if lit_value_prefix().is_prefix_of(s) {
        if s.len() > 18 && s[18] == '"' {
            match parse_string_body(s.skip(19)) {
                Some((x, n1)) => {
                    let p = 19 + n1;
                    if p <= s.len() && lit_close().is_prefix_of(s.skip(p)) {
                        Some((ResponseV::Value { value: Some(x) }, p + 2))
                    } else {
                        None
                    }
                },
                None => None,
            }
        } else if lit_null_close().is_prefix_of(s.skip(18)) {
            Some((ResponseV::Value { value: None }, 24))
        } else {
            None
        }
    } else {
        None
    }
}

/// Round trip of the wire protocol, request side: every encoded request
/// parses back to itself, whatever follows it.
#[verifier::rlimit(60)]
pub proof fn lemma_parse_encode_request(r: RequestV, rest: Seq<char>)
    ensures
        parse_request(encode_request(r) + rest) == Some::<(RequestV, int)>((
            r,
            encode_request(r).len() as int,
        )),
{
    let e = encode_request(r);
    let s = e + rest;
    match r {
        RequestV::Put { key, value } => {
            let tail1 = lit_value_sep() + escape_str(value) + seq!['"'] + lit_close() + rest;
            assert(lit_set_prefix().is_prefix_of(s)) by {
                assert(s.subrange(0, 15) =~= lit_set_prefix());
            };
            assert(s.skip(15) =~= escape_str(key) + seq!['"'] + tail1);
            lemma_parse_escaped(key, tail1);
            let n1 = escape_str(key).len() as int + 1;
            let p = 15 + n1;
            assert(p <= s.len());
            assert(s.skip(p) =~= tail1);
            assert(lit_value_sep().is_prefix_of(s.skip(p))) by {
                assert(s.skip(p).subrange(0, 10) =~= lit_value_sep());
            };
            let tail2 = lit_close() + rest;
            assert(s.skip(p + 10) =~= escape_str(value) + seq!['"'] + tail2);
            lemma_parse_escaped(value, tail2);
            let n2 = escape_str(value).len() as int + 1;
            let q = p + 10 + n2;
            assert(q <= s.len());
            assert(s.skip(q) =~= tail2);
            assert(lit_close().is_prefix_of(s.skip(q))) by {
                assert(s.skip(q).subrange(0, 2) =~= lit_close());
            };
            assert(q + 2 == e.len());
        },
        RequestV::Remove { key } => {
            assert(s[2] == 'R');
            assert(!lit_set_prefix().is_prefix_of(s)) by {
                if lit_set_prefix().is_prefix_of(s) {
                    assert(s.subrange(0, 15)[2] == s[2]);
                }
            };
            assert(lit_remove_prefix().is_prefix_of(s)) by {
                assert(s.subrange(0, 18) =~= lit_remove_prefix());
            };
            let tail1 = lit_close() + rest;
            assert(s.skip(18) =~= escape_str(key) + seq!['"'] + tail1);
            lemma_parse_escaped(key, tail1);
            let n1 = escape_str(key).len() as int + 1;
            let p = 18 + n1;
            assert(p <= s.len());
            assert(s.skip(p) =~= tail1);
            assert(lit_close().is_prefix_of(s.skip(p))) by {
                assert(s.skip(p).subrange(0, 2) =~= lit_close());
            };
            assert(p + 2 == e.len());
        },
        RequestV::Get { key } => {
            assert(s[2] == 'G');
            assert(!lit_set_prefix().is_prefix_of(s)) by {
                if lit_set_prefix().is_prefix_of(s) {
                    assert(s.subrange(0, 15)[2] == s[2]);
                }
            };
            assert(!lit_remove_prefix().is_prefix_of(s)) by {
                if lit_remove_prefix().is_prefix_of(s) {
                    assert(s.subrange(0, 18)[2] == s[2]);
                }
            };
            assert(lit_get_prefix().is_prefix_of(s)) by {
                assert(s.subrange(0, 15) =~= lit_get_prefix());
            };
            let tail1 = lit_close() + rest;
            assert(s.skip(15) =~= escape_str(key) + seq!['"'] + tail1);
            lemma_parse_escaped(key, tail1);
            let n1 = escape_str(key).len() as int + 1;
            let p = 15 + n1;
            assert(p <= s.len());
            assert(s.skip(p) =~= tail1);
            assert(lit_close().is_prefix_of(s.skip(p))) by {
                assert(s.skip(p).subrange(0, 2) =~= lit_close());
            };
            assert(p + 2 == e.len());
        },
    }
}

/// Round trip of the wire protocol, response side: every encoded response
/// parses back to itself, whatever follows it.
#[verifier::rlimit(60)]
pub proof fn lemma_parse_encode_response(r: ResponseV, rest: Seq<char>)
    ensures
        parse_response(encode_response(r) + rest) == Some::<(ResponseV, int)>((
            r,
            encode_response(r).len() as int,
        )),
{
    let e = encode_response(r);
    let s = e + rest;
    match r {
        ResponseV::Success => {
            assert(lit_success().is_prefix_of(s)) by {
                assert(s.subrange(0, 14) =~= lit_success());
            };
        },
        ResponseV::KeyNotFound => {
            assert(s[2] == 'K');
            assert(!lit_success().is_prefix_of(s)) by {
                if lit_success().is_prefix_of(s) {
                    assert(s.subrange(0, 14)[2] == s[2]);
                }
            };
            assert(lit_key_not_found().is_prefix_of(s)) by {
                assert(s.subrange(0, 18) =~= lit_key_not_found());
            };
        },
        ResponseV::Error { reason } => {
            assert(s[2] == 'E');
            assert(!lit_success().is_prefix_of(s)) by {
                if lit_success().is_prefix_of(s) {
                    assert(s.subrange(0, 14)[2] == s[2]);
                }
            };
            assert(!lit_key_not_found().is_prefix_of(s)) by {
                if lit_key_not_found().is_prefix_of(s) {
                    assert(s.subrange(0, 18)[2] == s[2]);
                }
            };
            assert(lit_error_prefix().is_prefix_of(s)) by {
                assert(s.subrange(0, 20) =~= lit_error_prefix());
            };
            let tail1 = lit_close() + rest;
            assert(s.skip(20) =~= escape_str(reason) + seq!['"'] + tail1);
            lemma_parse_escaped(reason, tail1);
            let n1 = escape_str(reason).len() as int + 1;
            let p = 20 + n1;
            assert(p <= s.len());
            assert(s.skip(p) =~= tail1);
            assert(lit_close().is_prefix_of(s.skip(p))) by {
                assert(s.skip(p).subrange(0, 2) =~= lit_close());
            };
            assert(p + 2 == e.len());
        },
        ResponseV::Value { value } => {
            assert(s[2] == 'V');
            assert(!lit_success().is_prefix_of(s)) by {
                if lit_success().is_prefix_of(s) {
                    assert(s.subrange(0, 14)[2] == s[2]);
                }
            };
            assert(!lit_key_not_found().is_prefix_of(s)) by {
                if lit_key_not_found().is_prefix_of(s) {
                    assert(s.subrange(0, 18)[2] == s[2]);
                }
            };
            assert(!lit_error_prefix().is_prefix_of(s)) by {
                if lit_error_prefix().is_prefix_of(s) {
                    assert(s.subrange(0, 20)[2] == s[2]);
                }
            };
            assert(lit_value_prefix().is_prefix_of(s)) by {
                assert(s.subrange(0, 18) =~= lit_value_prefix());
            };
            match value {
                Some(v) => {
                    assert(s.len() > 18 && s[18] == '"');
                    let tail1 = lit_close() + rest;
                    assert(s.skip(19) =~= escape_str(v) + seq!['"'] + tail1);
                    lemma_parse_escaped(v, tail1);
                    let n1 = escape_str(v).len() as int + 1;
                    let p = 19 + n1;
                    assert(p <= s.len());
                    assert(s.skip(p) =~= tail1);
                    assert(lit_close().is_prefix_of(s.skip(p))) by {
                        assert(s.skip(p).subrange(0, 2) =~= lit_close());
                    };
                    assert(p + 2 == e.len());
                },
                None => {
                    assert(s[18] == 'n');
                    assert(lit_null_close().is_prefix_of(s.skip(18))) by {
                        assert(s.skip(18).subrange(0, 6) =~= lit_null_close());
                    };
                    assert(e.len() == 24);
                },
            }
        },
    }
}


/// The opening of an encoded `Get` request, as characters.
fn lit_get_prefix_exec() -> (r: Vec<char>)
    ensures
        r@ == lit_get_prefix(),
{
    let r = vec!['{', '"', 'G', 'e', 't', '"', ':', '{', '"', 'k', 'e', 'y', '"', ':', '"'];
    proof {
        assert(r@ =~= lit_get_prefix());
    }
    r
}

/// An encoded `Success` response, as characters.
fn lit_success_exec() -> (r: Vec<char>)
    ensures
        r@ == lit_success(),
{
    let r = vec!['{', '"', 'S', 'u', 'c', 'c', 'e', 's', 's', '"', ':', '{', '}', '}'];
    proof {
        assert(r@ =~= lit_success());
    }
    r
}

/// An encoded `KeyNotFound` response, as characters.
fn lit_key_not_found_exec() -> (r: Vec<char>)
    ensures
        r@ == lit_key_not_found(),
{
    let r = vec!['{', '"', 'K', 'e', 'y', 'N', 'o', 't', 'F', 'o', 'u', 'n', 'd', '"', ':', '{',
        '}', '}'];
    proof {
        assert(r@ =~= lit_key_not_found());
    }
    r
}

/// The opening of an encoded `Error` response, as characters.
fn lit_error_prefix_exec() -> (r: Vec<char>)
    ensures
        r@ == lit_error_prefix(),
{
    let r = vec!['{', '"', 'E', 'r', 'r', 'o', 'r', '"', ':', '{', '"', 'r', 'e', 'a', 's', 'o',
        'n', '"', ':', '"'];
    proof {
        assert(r@ =~= lit_error_prefix());
    }
    r
}

/// The opening of an encoded `Value` response, as characters.
fn lit_value_prefix_exec() -> (r: Vec<char>)
    ensures
        r@ == lit_value_prefix(),
{
    let r = vec!['{', '"', 'V', 'a', 'l', 'u', 'e', '"', ':', '{', '"', 'v', 'a', 'l', 'u', 'e',
        '"', ':'];
    proof {
        assert(r@ =~= lit_value_prefix());
    }
    r
}

/// The `null` tail of a bare `Value` response, as characters.
fn lit_null_close_exec() -> (r: Vec<char>)
    ensures
        r@ == lit_null_close(),
{
    let r = vec!['n', 'u', 'l', 'l', '}', '}'];
    proof {
        assert(r@ =~= lit_null_close());
    }
    r
}

/// Encodes one request.
pub fn encode_request_exec(r: &CommandRequest) -> (out: Vec<char>)
    ensures
        out@ == encode_request(r@),
{
    match r {
        CommandRequest::Put { key, value } => {
            let mut out = lit_set_prefix_exec();
            escape_into(&mut out, key.as_str());
            out.push('"');
            let sep = lit_value_sep_exec();
            out.extend_from_slice(sep.as_slice());
            escape_into(&mut out, value.as_str());
            out.push('"');
            out.push('}');
            out.push('}');
            proof {
                assert(out@ =~= encode_request(r@));
            }
            out
        },
        CommandRequest::Remove { key } => {
            let mut out = lit_remove_prefix_exec();
            escape_into(&mut out, key.as_str());
            out.push('"');
            out.push('}');
            out.push('}');
            proof {
                assert(out@ =~= encode_request(r@));
            }
            out
        },
        CommandRequest::Get { key } => {
            let mut out = lit_get_prefix_exec();
            escape_into(&mut out, key.as_str());
            out.push('"');
            out.push('}');
            out.push('}');
            proof {
                assert(out@ =~= encode_request(r@));
            }
            out
        },
    }
}

/// Encodes one response.
pub fn encode_response_exec(r: &CommandResponse) -> (out: Vec<char>)
    ensures
        out@ == encode_response(r@),
{
    match r {
        CommandResponse::Success => {
            let out = lit_success_exec();
            out
        },
        CommandResponse::KeyNotFound => {
            let out = lit_key_not_found_exec();
            out
        },
        CommandResponse::Error { reason } => {
            let mut out = lit_error_prefix_exec();
            escape_into(&mut out, reason.as_str());
            out.push('"');
            out.push('}');
            out.push('}');
            proof {
                assert(out@ =~= encode_response(r@));
            }
            out
        },
        CommandResponse::Value { value } => {
            let mut out = lit_value_prefix_exec();
            match value {
                Some(v) => {
                    out.push('"');
                    escape_into(&mut out, v.as_str());
                    out.push('"');
                    out.push('}');
                    out.push('}');
                },
                None => {
                    let tail = lit_null_close_exec();
                    out.extend_from_slice(tail.as_slice());
                },
            }
            proof {
                assert(out@ =~= encode_response(r@));
            }
            out
        },
    }
}

/// Reads one request starting at `pos`.
pub fn parse_request_exec(s: &Vec<char>, pos: usize) -> (r: Option<(CommandRequest, usize)>)
    requires
        pos <= s@.len(),
    ensures
        match r {
            Some(p) => parse_request(s@.skip(pos as int)) == Some((p.0@, p.1 as int)) && 1 <= p.1
                <= s@.len() - pos,
            None => parse_request(s@.skip(pos as int)) is None,
        },
{
    // Reading the length here pins s@.len() <= usize::MAX for the offset
    // arithmetic below.
    let slen = s.len();
    let ghost whole = s@.skip(pos as int);
    let setp = lit_set_prefix_exec();
    let remp = lit_remove_prefix_exec();
    let getp = lit_get_prefix_exec();
    if matches_at(s, pos, &setp) {
        assert(whole.len() >= 15);
        match parse_string_body_exec(s, pos + 15) {
            Some((k, n1)) => {
                proof {
                    assert(s@.skip(pos + 15) =~= whole.skip(15));
                }
                let p = pos + 15 + n1;
                let sep = lit_value_sep_exec();
                if matches_at(s, p, &sep) {
                    proof {
                        assert(s@.skip(p as int) =~= whole.skip(15 + n1));
                    }
                    assert(whole.skip(15 + n1).len() >= 10);
                    match parse_string_body_exec(s, p + 10) {
                        Some((v, n2)) => {
                            proof {
                                assert(s@.skip(p + 10) =~= whole.skip(15 + n1 + 10));
                            }
                            let q = p + 10 + n2;
                            let close = lit_close_exec();
                            if matches_at(s, q, &close) {
                                proof {
                                    assert(s@.skip(q as int) =~= whole.skip(15 + n1 + 10 + n2));
                                }
                                let req = CommandRequest::Put {
                                    key: chars_to_string(&k),
                                    value: chars_to_string(&v),
                                };
                                Some((req, q + 2 - pos))
                            } else {
                                proof {
                                    assert(s@.skip(q as int) =~= whole.skip(15 + n1 + 10 + n2));
                                }
                                None
                            }
                        },
                        None => {
                            proof {
                                assert(s@.skip(p + 10) =~= whole.skip(15 + n1 + 10));
                            }
                            None
                        },
                    }
                } else {
                    proof {
                        assert(s@.skip(p as int) =~= whole.skip(15 + n1));
                    }
                    None
                }
            },
            None => {
                proof {
                    assert(s@.skip(pos + 15) =~= whole.skip(15));
                }
                None
            },
        }
    } else if matches_at(s, pos, &remp) {
        assert(whole.len() >= 18);
        match parse_string_body_exec(s, pos + 18) {
            Some((k, n1)) => {
                proof {
                    assert(s@.skip(pos + 18) =~= whole.skip(18));
                }
                let p = pos + 18 + n1;
                let close = lit_close_exec();
                if matches_at(s, p, &close) {
                    proof {
                        assert(s@.skip(p as int) =~= whole.skip(18 + n1));
                    }
                    Some((CommandRequest::Remove { key: chars_to_string(&k) }, p + 2 - pos))
                } else {
                    proof {
                        assert(s@.skip(p as int) =~= whole.skip(18 + n1));
                    }
                    None
                }
            },
            None => {
                proof {
                    assert(s@.skip(pos + 18) =~= whole.skip(18));
                }
                None
            },
        }
    } else if matches_at(s, pos, &getp) {
        assert(whole.len() >= 15);
        match parse_string_body_exec(s, pos + 15) {
            Some((k, n1)) => {
                proof {
                    assert(s@.skip(pos + 15) =~= whole.skip(15));
                }
                let p = pos + 15 + n1;
                let close = lit_close_exec();
                if matches_at(s, p, &close) {
                    proof {
                        assert(s@.skip(p as int) =~= whole.skip(15 + n1));
                    }
                    Some((CommandRequest::Get { key: chars_to_string(&k) }, p + 2 - pos))
                } else {
                    proof {
                        assert(s@.skip(p as int) =~= whole.skip(15 + n1));
                    }
                    None
                }
            },
            None => {
                proof {
                    assert(s@.skip(pos + 15) =~= whole.skip(15));
                }
                None
            },
        }
    } else {
        None
    }
}

/// Reads one response starting at `pos`.
pub fn parse_response_exec(s: &Vec<char>, pos: usize) -> (r: Option<(CommandResponse, usize)>)
    requires
        pos <= s@.len(),
    ensures
        match r {
            Some(p) => parse_response(s@.skip(pos as int)) == Some((p.0@, p.1 as int)) && 1 <= p.1
                <= s@.len() - pos,
            None => parse_response(s@.skip(pos as int)) is None,
        },
{
    let slen = s.len();
    let ghost whole = s@.skip(pos as int);
    let succ = lit_success_exec();
    let knf = lit_key_not_found_exec();
    let errp = lit_error_prefix_exec();
    let valp = lit_value_prefix_exec();
    if matches_at(s, pos, &succ) {
        Some((CommandResponse::Success, 14))
    } else if matches_at(s, pos, &knf) {
        Some((CommandResponse::KeyNotFound, 18))
    } else if matches_at(s, pos, &errp) {
        assert(whole.len() >= 20);
        match parse_string_body_exec(s, pos + 20) {
            Some((x, n1)) => {
                proof {
                    assert(s@.skip(pos + 20) =~= whole.skip(20));
                }
                let p = pos + 20 + n1;
                let close = lit_close_exec();
                if matches_at(s, p, &close) {
                    proof {
                        assert(s@.skip(p as int) =~= whole.skip(20 + n1));
                    }
                    Some((CommandResponse::Error { reason: chars_to_string(&x) }, p + 2 - pos))
                } else {
                    proof {
                        assert(s@.skip(p as int) =~= whole.skip(20 + n1));
                    }
                    None
                }
            },
            None => {
                proof {
                    assert(s@.skip(pos + 20) =~= whole.skip(20));
                }
                None
            },
        }
    } else if matches_at(s, pos, &valp) {
        assert(whole.len() >= 18);
        if slen - pos > 18 && s[pos + 18] == '"' {
            assert(whole[18] == '"');
            match parse_string_body_exec(s, pos + 19) {
                Some((x, n1)) => {
                    proof {
                        assert(s@.skip(pos + 19) =~= whole.skip(19));
                    }
                    let p = pos + 19 + n1;
                    let close = lit_close_exec();
                    if matches_at(s, p, &close) {
                        proof {
                            assert(s@.skip(p as int) =~= whole.skip(19 + n1));
                        }
                        Some((
                            CommandResponse::Value { value: Some(chars_to_string(&x)) },
                            p + 2 - pos,
                        ))
                    } else {
                        proof {
                            assert(s@.skip(p as int) =~= whole.skip(19 + n1));
                        }
                        None
                    }
                },
                None => {
                    proof {
                        assert(s@.skip(pos + 19) =~= whole.skip(19));
                    }
                    None
                },
            }
        } else {
            proof {
                if whole.len() > 18 && whole[18] == '"' {
                    assert(false);
                }
            }
            let nullc = lit_null_close_exec();
            let p18 = pos + 18;
            if matches_at(s, p18, &nullc) {
                proof {
                    assert(s@.skip(p18 as int) =~= whole.skip(18));
                }
                Some((CommandResponse::Value { value: None }, 24))
            } else {
                proof {
                    assert(s@.skip(p18 as int) =~= whole.skip(18));
                }
                None
            }
        }
    } else {
        None
    }
}

} // verus!


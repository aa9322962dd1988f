//! The compiled form of a JSONPath query: an ordered sequence of selectors,
//! and the parser that produces it from the query text.

use vstd::prelude::*;

verus! {

/// One compiled step of a JSONPath query.
#[derive(Debug, PartialEq, Eq)]
pub enum Selector {
    Root,
    DotMemberName(String),
    Wildcard,
    ArrayIndex(isize),
    ArraySlice(Option<isize>, Option<isize>, Option<isize>),
    DecendantDotMemberName(String),
    DecendantWildcard,
    DecendantArrayIndex(isize),
    Union(Vec<UnionMember>),
}

/// One element of a bracket union: a quoted member name or an array index.
#[derive(Debug, PartialEq, Eq, Clone)]
pub enum UnionMember {
    MemberName(String),
    ArrayIndex(isize),
}

/// The model of a `UnionMember`.
pub enum UmV {
    MemberName(Seq<char>),
    ArrayIndex(int),
}

/// The model of a `Selector`.
pub enum SelV {
    Root,
    DotMemberName(Seq<char>),
    Wildcard,
    ArrayIndex(int),
    ArraySlice(Option<int>, Option<int>, Option<int>),
    DecendantDotMemberName(Seq<char>),
    DecendantWildcard,
    DecendantArrayIndex(int),
    Union(Seq<UmV>),
}

pub open spec fn opt_int(o: Option<isize>) -> Option<int> {
    match o {
        Some(v) => Some(v as int),
        None => None,
    }
}

impl View for UnionMember {
    type V = UmV;

    open spec fn view(&self) -> UmV {
        match self {
            UnionMember::MemberName(k) => UmV::MemberName(k@),
            UnionMember::ArrayIndex(i) => UmV::ArrayIndex(*i as int),
        }
    }
}

impl View for Selector {
    type V = SelV;

    open spec fn view(&self) -> SelV {
        match self {
            Selector::Root => SelV::Root,
            Selector::DotMemberName(k) => SelV::DotMemberName(k@),
            Selector::Wildcard => SelV::Wildcard,
            Selector::ArrayIndex(i) => SelV::ArrayIndex(*i as int),
            Selector::ArraySlice(a, b, c) => SelV::ArraySlice(
                opt_int(*a),
                opt_int(*b),
                opt_int(*c),
            ),
            Selector::DecendantDotMemberName(k) => SelV::DecendantDotMemberName(k@),
            Selector::DecendantWildcard => SelV::DecendantWildcard,
            Selector::DecendantArrayIndex(i) => SelV::DecendantArrayIndex(*i as int),
            Selector::Union(ms) => SelV::Union(ms@.map_values(|m: UnionMember| m@)),
        }
    }
}

pub open spec fn sels_view(s: Seq<Selector>) -> Seq<SelV> {
    s.map_values(|sel: Selector| sel@)
}

/// The identity query: exactly one selector, the root.
pub open spec fn is_root_only(sels: Seq<SelV>) -> bool {
    sels.len() == 1 && sels[0] == SelV::Root
}

// --- the grammar, as spec-level recursive descent over the query text ---

pub open spec fn is_digit(c: char) -> bool {
    48 <= c as u32 <= 57
}

pub open spec fn digit_val(c: char) -> int {
    c as u32 - 48
}

pub open spec fn is_ident_start(c: char) -> bool {
    (65 <= c as u32 <= 90) || (97 <= c as u32 <= 122) || c as u32 == 95
}

pub open spec fn is_ident_char(c: char) -> bool {
    is_ident_start(c) || is_digit(c)
}

/// A character that can begin an integer literal.
pub open spec fn int_start(c: char) -> bool {
    c == '-' || is_digit(c)
}

pub open spec fn is_hex(c: char) -> bool {
    is_digit(c) || (97 <= c as u32 <= 102) || (65 <= c as u32 <= 70)
}

pub open spec fn hex_val(c: char) -> int {
    if is_digit(c) {
        c as u32 - 48
    } else if 97 <= c as u32 <= 102 {
        c as u32 - 87
    } else {
        c as u32 - 55
    }
}

/// A Unicode scalar value: any code point except the surrogate range.
pub open spec fn valid_code_point(cp: int) -> bool {
    (0 <= cp < 0xD800) || (0xE000 <= cp <= 0x10FFFF)
}

/// The first position at or after `i` that does not continue an
/// identifier.
pub open spec fn ident_end(s: Seq<char>, i: int) -> int
    decreases s.len() - i,
    when 0 <= i
{
    if i < s.len() && is_ident_char(s[i]) {
        ident_end(s, i + 1)
    } else {
        i
    }
}

/// The first position at or after `i` that does not hold a digit.
pub open spec fn digits_end(s: Seq<char>, i: int) -> int
    decreases s.len() - i,
    when 0 <= i
{
    if i < s.len() && is_digit(s[i]) {
        digits_end(s, i + 1)
    } else {
        i
    }
}

/// The value of the digit run `s[i..e]`, most significant digit first.
pub open spec fn digits_val(s: Seq<char>, i: int, e: int) -> int
    decreases e - i,
{
    if i >= e {
        0
    } else {
        digits_val(s, i, e - 1) * 10 + digit_val(s[e - 1])
    }
}

/// An integer literal at `i`: an optional minus sign, then at least one
/// digit. A value outside the machine index range is a parse failure.
pub open spec fn spec_int(s: Seq<char>, i: int) -> Option<(int, int)> {
    let neg = 0 <= i < s.len() && s[i] == '-';
    let d0 = if neg {
        i + 1
    } else {
        i
    };
    let e = digits_end(s, d0);
    if e == d0 {
        None
    } else {
        let m = digits_val(s, d0, e);
        let n = if neg {
            -m
        } else {
            m
        };
        if n < isize::MIN as int || n > isize::MAX as int {
            None
        } else {
            Some((n, e))
        }
    }
}

/// Position of the closing quote `d`, skipping over backslash escapes.
pub open spec fn quote_end(s: Seq<char>, i: int, d: char) -> Option<int>
    decreases s.len() - i,
    when 0 <= i
{
    if i >= s.len() {
        None
    } else if s[i] == d {
        Some(i)
    } else if s[i] == '\\' {
        if i + 1 >= s.len() {
            None
        } else {
            quote_end(s, i + 2, d)
        }
    } else {
        quote_end(s, i + 1, d)
    }
}

/// The character an escape letter stands for, if it is a recognized
/// escape.
pub open spec fn escape_char(c: char) -> Option<char> {
    if c == 'b' {
        Some('\u{0008}')
    } else if c == 't' {
        Some('\u{0009}')
    } else if c == 'n' {
        Some('\u{000A}')
    } else if c == 'f' {
        Some('\u{000C}')
    } else if c == 'r' {
        Some('\u{000D}')
    } else if c == '"' {
        Some('"')
    } else if c == '\'' {
        Some('\'')
    } else if c == '/' {
        Some('/')
    } else if c == '\\' {
        Some('\\')
    } else {
        None
    }
}

/// Decode the backslash escapes of a quoted member name, one character at
/// a time; a dangling backslash, an unknown escape letter, or a bad or
/// non-scalar `\uXXXX` sequence is a failure.
pub open spec fn spec_unescape(raw: Seq<char>) -> Option<Seq<char>>
    decreases raw.len(),
{
    if raw.len() == 0 {
        Some(Seq::empty())
    } else if raw[0] != '\\' {
        match spec_unescape(raw.drop_first()) {
            Some(t) => Some(seq![raw[0]] + t),
            None => None,
        }
    } else if raw.len() < 2 {
        None
    } else if raw[1] == 'u' {
        if raw.len() < 6 {
            None
        } else if !(is_hex(raw[2]) && is_hex(raw[3]) && is_hex(raw[4]) && is_hex(raw[5])) {
            None
        } else {
            let cp = hex_val(raw[2]) * 4096 + hex_val(raw[3]) * 256 + hex_val(raw[4]) * 16
                + hex_val(raw[5]);
            if !valid_code_point(cp) {
                None
            } else {
                match spec_unescape(raw.skip(6)) {
                    Some(t) => Some(seq![cp as char] + t),
                    None => None,
                }
            }
        }
    } else {
        match escape_char(raw[1]) {
            Some(c) => match spec_unescape(raw.skip(2)) {
                Some(t) => Some(seq![c] + t),
                None => None,
            },
            None => None,
        }
    }
}

/// A quoted member name starting at the opening quote `s[i]`: the decoded
/// name and the position after the closing quote.
pub open spec fn spec_quoted(s: Seq<char>, i: int) -> Option<(Seq<char>, int)> {
    let d = s[i];
    match quote_end(s, i + 1, d) {
        Some(e) => match spec_unescape(s.subrange(i + 1, e)) {
            Some(t) => Some((t, e + 1)),
            None => None,
        },
        None => None,
    }
}

/// After `.`: a wildcard or an unquoted member name.
pub open spec fn spec_dot_tail(s: Seq<char>, i: int) -> Option<(SelV, int)> {
    if 0 <= i < s.len() && s[i] == '*' {
        Some((SelV::Wildcard, i + 1))
    } else if 0 <= i < s.len() && is_ident_start(s[i]) {
        Some((SelV::DotMemberName(s.subrange(i, ident_end(s, i))), ident_end(s, i)))
    } else {
        None
    }
}

/// After `..`: a wildcard, a bracketed wildcard / quoted name / index, or
/// an unquoted member name.
pub open spec fn spec_descendant(s: Seq<char>, i: int) -> Option<(SelV, int)> {
    if i >= s.len() || i < 0 {
        None
    } else if s[i] == '*' {
        Some((SelV::DecendantWildcard, i + 1))
    } else if s[i] == '[' {
        if i + 1 < s.len() && s[i + 1] == '*' {
            if i + 2 < s.len() && s[i + 2] == ']' {
                Some((SelV::DecendantWildcard, i + 3))
            } else {
                None
            }
        } else if i + 1 < s.len() && (s[i + 1] == '\'' || s[i + 1] == '"') {
            match spec_quoted(s, i + 1) {
                Some((t, j)) => if j < s.len() && s[j] == ']' {
                    Some((SelV::DecendantDotMemberName(t), j + 1))
                } else {
                    None
                },
                None => None,
            }
        } else if i + 1 < s.len() && int_start(s[i + 1]) {
            match spec_int(s, i + 1) {
                Some((n, j)) => if j < s.len() && s[j] == ']' {
                    Some((SelV::DecendantArrayIndex(n), j + 1))
                } else {
                    None
                },
                None => None,
            }
        } else {
            None
        }
    } else if is_ident_start(s[i]) {
        Some((SelV::DecendantDotMemberName(s.subrange(i, ident_end(s, i))), ident_end(s, i)))
    } else {
        None
    }
}

/// The members of a bracket union after the first comma; every element is
/// a quoted name or an integer index.
pub open spec fn spec_union(s: Seq<char>, i: int, acc: Seq<UmV>) -> Option<(SelV, int)>
    decreases s.len() - i,
    when 0 <= i
{
    if i < s.len() && (s[i] == '\'' || s[i] == '"') {
        match spec_quoted(s, i) {
            Some((t, j)) => if i < j && j < s.len() && s[j] == ',' {
                spec_union(s, j + 1, acc.push(UmV::MemberName(t)))
            } else if j < s.len() && s[j] == ']' {
                Some((SelV::Union(acc.push(UmV::MemberName(t))), j + 1))
            } else {
                None
            },
            None => None,
        }
    } else if i < s.len() && int_start(s[i]) {
        match spec_int(s, i) {
            Some((n, j)) => if i < j && j < s.len() && s[j] == ',' {
                spec_union(s, j + 1, acc.push(UmV::ArrayIndex(n)))
            } else if j < s.len() && s[j] == ']' {
                Some((SelV::Union(acc.push(UmV::ArrayIndex(n))), j + 1))
            } else {
                None
            },
            None => None,
        }
    } else {
        None
    }
}

/// The end and step of a slice, after the start bound and first `:`.
pub open spec fn spec_slice_tail(
    s: Seq<char>,
    j: int,
    start: Option<int>,
    end: Option<int>,
) -> Option<(SelV, int)> {
    if j < s.len() && s[j] == ']' {
        Some((SelV::ArraySlice(start, end, None), j + 1))
    } else if j < s.len() && s[j] == ':' {
        if j + 1 < s.len() && int_start(s[j + 1]) {
            match spec_int(s, j + 1) {
                Some((st, k)) => if k < s.len() && s[k] == ']' {
                    Some((SelV::ArraySlice(start, end, Some(st)), k + 1))
                } else {
                    None
                },
                None => None,
            }
        } else if j + 1 < s.len() && s[j + 1] == ']' {
            Some((SelV::ArraySlice(start, end, None), j + 2))
        } else {
            None
        }
    } else {
        None
    }
}

/// A slice selector from its first `:` at `s[i]`, with the already-parsed
/// start bound.
pub open spec fn spec_slice(s: Seq<char>, i: int, start: Option<int>) -> Option<(SelV, int)> {
    if i + 1 < s.len() && int_start(s[i + 1]) {
        match spec_int(s, i + 1) {
            Some((e, j)) => spec_slice_tail(s, j, start, Some(e)),
            None => None,
        }
    } else {
        spec_slice_tail(s, i + 1, start, None)
    }
}

/// The inside of a bracket group, from the position after `[`. A filter
/// (`?`) is recognized but never builds: it is a parse failure.
pub open spec fn spec_bracket(s: Seq<char>, i: int) -> Option<(SelV, int)> {
    if i >= s.len() || i < 0 {
        None
    } else if s[i] == '*' {
        if i + 1 < s.len() && s[i + 1] == ']' {
            Some((SelV::Wildcard, i + 2))
        } else {
            None
        }
    } else if s[i] == '\'' || s[i] == '"' {
        match spec_quoted(s, i) {
            Some((t, j)) => if j < s.len() && s[j] == ']' {
                Some((SelV::DotMemberName(t), j + 1))
            } else if i < j && j < s.len() && s[j] == ',' {
                spec_union(s, j + 1, seq![UmV::MemberName(t)])
            } else {
                None
            },
            None => None,
        }
    } else if int_start(s[i]) {
        match spec_int(s, i) {
            Some((n, j)) => if j < s.len() && s[j] == ']' {
                Some((SelV::ArrayIndex(n), j + 1))
            } else if i < j && j < s.len() && s[j] == ',' {
                spec_union(s, j + 1, seq![UmV::ArrayIndex(n)])
            } else if j < s.len() && s[j] == ':' {
                spec_slice(s, j, Some(n))
            } else {
                None
            },
            None => None,
        }
    } else if s[i] == ':' {
        spec_slice(s, i, None)
    } else {
        None
    }
}

/// One step of the query: a dot selector, a descendant selector, or a
/// bracket group.
pub open spec fn spec_step(s: Seq<char>, i: int) -> Option<(SelV, int)> {
    if 0 <= i < s.len() && s[i] == '.' {
        if i + 1 < s.len() && s[i + 1] == '.' {
            spec_descendant(s, i + 2)
        } else {
            spec_dot_tail(s, i + 1)
        }
    } else if 0 <= i < s.len() && s[i] == '[' {
        spec_bracket(s, i + 1)
    } else {
        None
    }
}

/// All remaining steps from position `i`.
pub open spec fn spec_steps(s: Seq<char>, i: int) -> Option<Seq<SelV>>
    decreases s.len() - i,
    when 0 <= i
{
    if i >= s.len() {
        Some(Seq::empty())
    } else {
        match spec_step(s, i) {
            Some((sel, j)) => if i < j && j <= s.len() {
                match spec_steps(s, j) {
                    Some(rest) => Some(seq![sel] + rest),
                    None => None,
                }
            } else {
                None
            },
            None => None,
        }
    }
}

/// A bracket group whose first content character is `?`: a filter
/// selector, recognized but deliberately unimplemented.
pub open spec fn is_filter_step(s: Seq<char>, i: int) -> bool {
    0 <= i < s.len() && s[i] == '[' && i + 1 < s.len() && s[i + 1] == '?'
}

/// Walking the steps from `i`, parsing fails and the failing step is a
/// filter selector.
pub open spec fn steps_fail_at_filter(s: Seq<char>, i: int) -> bool
    decreases s.len() - i,
    when 0 <= i
{
    if i >= s.len() {
        false
    } else {
        match spec_step(s, i) {
            Some(r) => if i < r.1 && r.1 <= s.len() {
                steps_fail_at_filter(s, r.1)
            } else {
                false
            },
            None => is_filter_step(s, i),
        }
    }
}

/// Parsing the query fails at a filter selector.
pub open spec fn fails_at_filter(q: Seq<char>) -> bool {
    let i0: int = if q.len() > 0 && q[0] == '$' {
        1
    } else {
        0
    };
    steps_fail_at_filter(q, i0)
}

/// The compiled form of a query string: an optional leading `$`, then the
/// steps; the result always begins with `Root`. An empty string is the
/// identity query.
pub open spec fn spec_parse(s: Seq<char>) -> Option<Seq<SelV>> {
    let i0: int = if s.len() > 0 && s[0] == '$' {
        1
    } else {
        0
    };
    match spec_steps(s, i0) {
        Some(sels) => Some(seq![SelV::Root] + sels),
        None => None,
    }
}

// --- the executable parser ---

fn is_digit_ch(c: char) -> (b: bool)
    ensures
        b == is_digit(c),
{
    let u = c as u32;
    48 <= u && u <= 57
}

fn is_ident_start_ch(c: char) -> (b: bool)
    ensures
        b == is_ident_start(c),
{
    let u = c as u32;
    (65 <= u && u <= 90) || (97 <= u && u <= 122) || u == 95
}

fn is_ident_ch(c: char) -> (b: bool)
    ensures
        b == is_ident_char(c),
{
    is_ident_start_ch(c) || is_digit_ch(c)
}

fn int_start_ch(c: char) -> (b: bool)
    ensures
        b == int_start(c),
{
    c == '-' || is_digit_ch(c)
}

fn hex_digit(c: char) -> (r: Option<u32>)
    ensures
        match r {
            Some(h) => is_hex(c) && h as int == hex_val(c) && h < 16,
            None => !is_hex(c),
        },
{
    let u = c as u32;
    if 48 <= u && u <= 57 {
        Some(u - 48)
    } else if 97 <= u && u <= 102 {
        Some(u - 87)
    } else if 65 <= u && u <= 70 {
        Some(u - 55)
    } else {
        None
    }
}

fn escape_of(c: char) -> (r: Option<char>)
    ensures
        r == escape_char(c),
{
    if c == 'b' {
        Some('\u{0008}')
    } else if c == 't' {
        Some('\u{0009}')
    } else if c == 'n' {
        Some('\u{000A}')
    } else if c == 'f' {
        Some('\u{000C}')
    } else if c == 'r' {
        Some('\u{000D}')
    } else if c == '"' {
        Some('"')
    } else if c == '\'' {
        Some('\'')
    } else if c == '/' {
        Some('/')
    } else if c == '\\' {
        Some('\\')
    } else {
        None
    }
}

/// Relies on `char::from_u32`: `Some` exactly for Unicode scalar values
/// (everything but the surrogate range and values past the last code
/// point), returning the character with that code point.
#[verifier::external_body]
fn char_from_u32(cp: u32) -> (r: Option<char>)
    ensures
        r == (if valid_code_point(cp as int) {
            Some((cp as int) as char)
        } else {
            None::<char>
        }),
{
    char::from_u32(cp)
}

/// The characters of the query text, in order.
#[verifier::loop_isolation(false)]
fn str_chars(s: &str) -> (r: Vec<char>)
    ensures
        r@ == s@,
{
    let n = s.unicode_len();
    let mut out: Vec<char> = Vec::new();
    let mut i: usize = 0;
    while i < n
        invariant
            i <= n,
            n == s@.len(),
            out@.len() == i,
            forall|j: int| 0 <= j < i ==> out@[j] == s@[j],
        decreases n - i,
    {
        let c = s.get_char(i);
        out.push(c);
        i += 1;
    }
    proof {
        assert(out@ =~= s@);
    }
    out
}

/// The characters `cs[from..to]`, as an owned vector.
#[verifier::loop_isolation(false)]
fn sub_chars(cs: &Vec<char>, from: usize, to: usize) -> (r: Vec<char>)
    requires
        from <= to <= cs@.len(),
    ensures
        r@ == cs@.subrange(from as int, to as int),
{
    let mut out: Vec<char> = Vec::new();
    let mut i = from;
    while i < to
        invariant
            from <= i <= to,
            out@.len() == i - from,
            forall|j: int| 0 <= j < i - from ==> out@[j] == cs@[from + j],
        decreases to - i,
    {
        let c = cs[i];
        out.push(c);
        i += 1;
    }
    proof {
        assert(out@ =~= cs@.subrange(from as int, to as int));
    }
    out
}

/// The characters `cs[from..to]`, as an owned string.
#[verifier::loop_isolation(false)]
fn string_range(cs: &Vec<char>, from: usize, to: usize) -> (r: String)
    requires
        from <= to <= cs@.len(),
    ensures
        r@ == cs@.subrange(from as int, to as int),
{
    let mut out = String::new();
    let mut i = from;
    while i < to
        invariant
            from <= i <= to,
            out@.len() == i - from,
            forall|j: int| 0 <= j < i - from ==> out@[j] == cs@[from + j],
        decreases to - i,
    {
        let c = cs[i];
        crate::util::push_char(&mut out, c);
        i += 1;
    }
    proof {
        assert(out@ =~= cs@.subrange(from as int, to as int));
    }
    out
}

/// A parse-failure message naming the offending part of the query.
fn perr(what: &str, cs: &Vec<char>, at: usize) -> (r: String) {
    let mut msg = String::from_str("unable to parse, ");
    msg.append(what);
    msg.append(": ");
    let from = if at <= cs.len() {
        at
    } else {
        cs.len()
    };
    let rest = string_range(cs, from, cs.len());
    msg.append(rest.as_str());
    msg
}

#[verifier::loop_isolation(false)]
fn ident_end_exec(cs: &Vec<char>, start: usize) -> (e: usize)
    requires
        start <= cs@.len(),
    ensures
        e as int == ident_end(cs@, start as int),
        start <= e <= cs@.len(),
{
    let mut i = start;
    while i < cs.len() && is_ident_ch(cs[i])
        invariant
            start <= i <= cs@.len(),
            ident_end(cs@, start as int) == ident_end(cs@, i as int),
        decreases cs@.len() - i,
    {
        i += 1;
    }
    i
}

/// An integer literal for an index or slice bound; magnitudes past the
/// machine index range are a parse failure.
#[verifier::loop_isolation(false)]
fn array_index(cs: &Vec<char>, i: usize) -> (r: Result<(isize, usize), String>)
    requires
        i <= cs@.len(),
    ensures
        match r {
            Ok((n, j)) => spec_int(cs@, i as int) == Some((n as int, j as int)) && i < j
                <= cs@.len(),
            Err(_) => spec_int(cs@, i as int) is None,
        },
{
    let n = cs.len();
    let mut j = i;
    let neg = j < n && cs[j] == '-';
    if neg {
        j += 1;
    }
    let d0 = j;
    let mut acc: i128 = 0;
    while j < n && is_digit_ch(cs[j])
        invariant
            d0 <= j <= n,
            digits_end(cs@, d0 as int) == digits_end(cs@, j as int),
            0 <= acc <= 0x1_0000_0000_0000_0000,
            acc < 0x1_0000_0000_0000_0000 ==> acc as int == digits_val(cs@, d0 as int, j as int),
            acc == 0x1_0000_0000_0000_0000 ==> digits_val(cs@, d0 as int, j as int) >= acc as int,
        decreases n - j,
    {
        let d = (cs[j] as u32 - 48) as i128;
        let ghost old_val = digits_val(cs@, d0 as int, j as int);
        let t = acc * 10 + d;
        proof {
            assert(cs@.subrange(d0 as int, j + 1).len() == j + 1 - d0);
            assert(digits_val(cs@, d0 as int, j + 1) == old_val * 10 + digit_val(cs@[j as int]));
        }
        if t >= 0x1_0000_0000_0000_0000 {
            acc = 0x1_0000_0000_0000_0000;
        } else {
            acc = t;
        }
        j += 1;
    }
    if j == d0 {
        return Err(perr("expected an integer", cs, i));
    }
    proof {
        assert(digits_end(cs@, j as int) == j as int);
    }
    let bound: i128 = if neg {
        (isize::MAX as i128) + 1
    } else {
        isize::MAX as i128
    };
    if acc > bound {
        return Err(perr("integer out of range", cs, i));
    }
    let v: isize = if neg {
        (-acc) as isize
    } else {
        acc as isize
    };
    Ok((v, j))
}

#[verifier::loop_isolation(false)]
fn quote_end_exec(cs: &Vec<char>, start: usize, d: char) -> (r: Option<usize>)
    requires
        start <= cs@.len(),
    ensures
        match r {
            Some(e) => quote_end(cs@, start as int, d) == Some(e as int) && start <= e
                < cs@.len(),
            None => quote_end(cs@, start as int, d) is None,
        },
{
    let mut i = start;
    while i < cs.len()
        invariant
            start <= i,
            quote_end(cs@, start as int, d) == quote_end(cs@, i as int, d),
        decreases cs@.len() - i,
    {
        let c = cs[i];
        if c == d {
            return Some(i);
        }
        if c == '\\' {
            if i + 1 >= cs.len() {
                return None;
            }
            i += 2;
        } else {
            i += 1;
        }
    }
    None
}

/// Decode the escapes of the raw body of a quoted member name.
#[verifier::loop_isolation(false)]
fn member_name_from_quoted(raw: &Vec<char>) -> (r: Result<String, String>)
    ensures
        match r {
            Ok(sout) => spec_unescape(raw@) == Some(sout@),
            Err(_) => spec_unescape(raw@) is None,
        },
{
    let mut out = String::new();
    let mut i: usize = 0;
    proof {
        assert(raw@.skip(0) =~= raw@);
    }
    while i < raw.len()
        invariant
            i <= raw@.len(),
            match spec_unescape(raw@.skip(i as int)) {
                Some(t) => spec_unescape(raw@) == Some(out@ + t),
                None => spec_unescape(raw@) is None,
            },
        decreases raw@.len() - i,
    {
        let ghost rem = raw@.skip(i as int);
        let ghost pre = out@;
        let c = raw[i];
        proof {
            assert(rem[0] == raw@[i as int]);
        }
        if c != '\\' {
            crate::util::push_char(&mut out, c);
            proof {
                assert(rem.drop_first() =~= raw@.skip(i + 1));
                match spec_unescape(raw@.skip(i + 1)) {
                    Some(t) => {
                        assert(spec_unescape(rem) == Some(seq![c] + t));
                        assert(pre + (seq![c] + t) =~= (pre.push(c)) + t);
                    },
                    None => {},
                }
            }
            i += 1;
        } else if i + 1 >= raw.len() {
            proof {
                assert(rem.len() < 2);
            }
            return Err(String::from_str("invalid escape sequence"));
        } else {
            let e = raw[i + 1];
            proof {
                assert(rem[1] == raw@[i + 1]);
            }
            if e == 'u' {
                if raw.len() - i < 6 {
                    proof {
                        assert(rem.len() < 6);
                    }
                    return Err(String::from_str("invalid unicode sequence"));
                }
                proof {
                    assert(rem[2] == raw@[i + 2]);
                    assert(rem[3] == raw@[i + 3]);
                    assert(rem[4] == raw@[i + 4]);
                    assert(rem[5] == raw@[i + 5]);
                }
                let h2 = hex_digit(raw[i + 2]);
                let h3 = hex_digit(raw[i + 3]);
                let h4 = hex_digit(raw[i + 4]);
                let h5 = hex_digit(raw[i + 5]);
                if h2.is_none() || h3.is_none() || h4.is_none() || h5.is_none() {
                    return Err(String::from_str("invalid unicode sequence"));
                }
                let cp = h2.unwrap() * 4096 + h3.unwrap() * 256 + h4.unwrap() * 16 + h5.unwrap();
                match char_from_u32(cp) {
                    Some(ch) => {
                        crate::util::push_char(&mut out, ch);
                        proof {
                            assert(rem.skip(6) =~= raw@.skip(i + 6));
                            match spec_unescape(raw@.skip(i + 6)) {
                                Some(t) => {
                                    assert(spec_unescape(rem) == Some(seq![ch] + t));
                                    assert(pre + (seq![ch] + t) =~= (pre.push(ch)) + t);
                                },
                                None => {},
                            }
                        }
                        i += 6;
                    },
                    None => {
                        return Err(String::from_str("invalid unicode sequence"));
                    },
                }
            } else {
                match escape_of(e) {
                    Some(u) => {
                        crate::util::push_char(&mut out, u);
                        proof {
                            assert(rem.skip(2) =~= raw@.skip(i + 2));
                            match spec_unescape(raw@.skip(i + 2)) {
                                Some(t) => {
                                    assert(spec_unescape(rem) == Some(seq![u] + t));
                                    assert(pre + (seq![u] + t) =~= (pre.push(u)) + t);
                                },
                                None => {},
                            }
                        }
                        i += 2;
                    },
                    None => {
                        return Err(String::from_str("invalid escape sequence"));
                    },
                }
            }
        }
    }
    proof {
        assert(raw@.skip(raw@.len() as int) =~= Seq::<char>::empty());
        assert(out@ + Seq::<char>::empty() =~= out@);
    }
    Ok(out)
}

/// A quoted member name from its opening quote at `cs[i]`.
fn quoted_name(cs: &Vec<char>, i: usize) -> (r: Result<(String, usize), String>)
    requires
        i < cs@.len(),
    ensures
        match r {
            Ok((t, j)) => spec_quoted(cs@, i as int) == Some((t@, j as int)) && i < j
                <= cs@.len(),
            Err(_) => spec_quoted(cs@, i as int) is None,
        },
{
    // The length as a machine integer bounds every position used below.
    let n = cs.len();
    proof {
        assert(cs@.len() == n as int);
    }
    let d = cs[i];
    match quote_end_exec(cs, i + 1, d) {
        Some(e) => {
            let raw = sub_chars(cs, i + 1, e);
            match member_name_from_quoted(&raw) {
                Ok(name) => Ok((name, e + 1)),
                Err(m) => Err(m),
            }
        },
        None => Err(perr("unterminated quote", cs, i)),
    }
}

proof fn lemma_ident_end_ge(s: Seq<char>, i: int)
    requires
        0 <= i,
    ensures
        ident_end(s, i) >= i,
    decreases s.len() - i,
{
    if i < s.len() && is_ident_char(s[i]) {
        lemma_ident_end_ge(s, i + 1);
    }
}

/// After `.`: a wildcard or an unquoted member name.
fn dot_tail_sel(cs: &Vec<char>, i: usize) -> (r: Result<(Selector, usize), String>)
    requires
        i <= cs@.len(),
    ensures
        match r {
            Ok((sel, j)) => spec_dot_tail(cs@, i as int) == Some((sel@, j as int)) && i < j
                <= cs@.len(),
            Err(_) => spec_dot_tail(cs@, i as int) is None,
        },
{
    if i < cs.len() && cs[i] == '*' {
        return Ok((Selector::Wildcard, i + 1));
    }
    if i < cs.len() && is_ident_start_ch(cs[i]) {
        let e = ident_end_exec(cs, i);
        proof {
            lemma_ident_end_ge(cs@, i + 1);
        }
        let name = string_range(cs, i, e);
        return Ok((Selector::DotMemberName(name), e));
    }
    Err(perr("expected a member name or wildcard", cs, i))
}

/// After `..`: the descendant form of a wildcard, member name or index.
fn descendant_sel(cs: &Vec<char>, i: usize) -> (r: Result<(Selector, usize), String>)
    requires
        i <= cs@.len(),
    ensures
        match r {
            Ok((sel, j)) => spec_descendant(cs@, i as int) == Some((sel@, j as int)) && i < j
                <= cs@.len(),
            Err(_) => spec_descendant(cs@, i as int) is None,
        },
{
    let n = cs.len();
    if i >= n {
        return Err(perr("expected a descendant selector", cs, i));
    }
    let c = cs[i];
    if c == '*' {
        return Ok((Selector::DecendantWildcard, i + 1));
    }
    if c == '[' {
        if i + 1 < n && cs[i + 1] == '*' {
            if i + 2 < n && cs[i + 2] == ']' {
                return Ok((Selector::DecendantWildcard, i + 3));
            }
            return Err(perr("expected a closing bracket", cs, i));
        }
        if i + 1 < n && (cs[i + 1] == '\'' || cs[i + 1] == '"') {
            match quoted_name(cs, i + 1) {
                Ok((t, j)) => {
                    if j < n && cs[j] == ']' {
                        return Ok((Selector::DecendantDotMemberName(t), j + 1));
                    }
                    return Err(perr("expected a closing bracket", cs, i));
                },
                Err(m) => {
                    return Err(m);
                },
            }
        }
        if i + 1 < n && int_start_ch(cs[i + 1]) {
            match array_index(cs, i + 1) {
                Ok((v, j)) => {
                    if j < n && cs[j] == ']' {
                        return Ok((Selector::DecendantArrayIndex(v), j + 1));
                    }
                    return Err(perr("expected a closing bracket", cs, i));
                },
                Err(m) => {
                    return Err(m);
                },
            }
        }
        return Err(perr("expected a descendant selector", cs, i));
    }
    if is_ident_start_ch(c) {
        let e = ident_end_exec(cs, i);
        proof {
            lemma_ident_end_ge(cs@, i + 1);
        }
        let name = string_range(cs, i, e);
        return Ok((Selector::DecendantDotMemberName(name), e));
    }
    Err(perr("expected a descendant selector", cs, i))
}

/// The members of a bracket union after the first comma.
fn union_sel(cs: &Vec<char>, i: usize, acc: Vec<UnionMember>) -> (r: Result<
    (Selector, usize),
    String,
>)
    requires
        i <= cs@.len(),
    ensures
        match r {
            Ok((sel, j)) => spec_union(cs@, i as int, acc@.map_values(|m: UnionMember| m@))
                == Some((sel@, j as int)) && i < j <= cs@.len(),
            Err(_) => spec_union(cs@, i as int, acc@.map_values(|m: UnionMember| m@)) is None,
        },
    decreases cs@.len() - i,
{
    let ghost accv = acc@.map_values(|m: UnionMember| m@);
    let n = cs.len();
    if i < n && (cs[i] == '\'' || cs[i] == '"') {
        match quoted_name(cs, i) {
            Ok((t, j)) => {
                let ghost tv = t@;
                if j < n && cs[j] == ',' {
                    let mut acc2 = acc;
                    acc2.push(UnionMember::MemberName(t));
                    proof {
                        assert(acc2@.map_values(|m: UnionMember| m@) =~= accv.push(
                            UmV::MemberName(tv),
                        ));
                    }
                    union_sel(cs, j + 1, acc2)
                } else if j < n && cs[j] == ']' {
                    let mut acc2 = acc;
                    acc2.push(UnionMember::MemberName(t));
                    proof {
                        assert(acc2@.map_values(|m: UnionMember| m@) =~= accv.push(
                            UmV::MemberName(tv),
                        ));
                    }
                    Ok((Selector::Union(acc2), j + 1))
                } else {
                    Err(perr("expected a comma or closing bracket", cs, i))
                }
            },
            Err(m) => Err(m),
        }
    } else if i < n && int_start_ch(cs[i]) {
        match array_index(cs, i) {
            Ok((v, j)) => {
                if j < n && cs[j] == ',' {
                    let mut acc2 = acc;
                    acc2.push(UnionMember::ArrayIndex(v));
                    proof {
                        assert(acc2@.map_values(|m: UnionMember| m@) =~= accv.push(
                            UmV::ArrayIndex(v as int),
                        ));
                    }
                    union_sel(cs, j + 1, acc2)
                } else if j < n && cs[j] == ']' {
                    let mut acc2 = acc;
                    acc2.push(UnionMember::ArrayIndex(v));
                    proof {
                        assert(acc2@.map_values(|m: UnionMember| m@) =~= accv.push(
                            UmV::ArrayIndex(v as int),
                        ));
                    }
                    Ok((Selector::Union(acc2), j + 1))
                } else {
                    Err(perr("expected a comma or closing bracket", cs, i))
                }
            },
            Err(m) => Err(m),
        }
    } else {
        Err(perr("expected a union member", cs, i))
    }
}

/// The end and step of a slice, after the start bound and first `:`.
fn slice_tail_sel(cs: &Vec<char>, j: usize, start: Option<isize>, end: Option<isize>) -> (r:
    Result<(Selector, usize), String>)
    requires
        j <= cs@.len(),
    ensures
        match r {
            Ok((sel, k)) => spec_slice_tail(cs@, j as int, opt_int(start), opt_int(end)) == Some(
                (sel@, k as int),
            ) && j < k <= cs@.len(),
            Err(_) => spec_slice_tail(cs@, j as int, opt_int(start), opt_int(end)) is None,
        },
{
    let n = cs.len();
    if j < n && cs[j] == ']' {
        return Ok((Selector::ArraySlice(start, end, None), j + 1));
    }
    if j < n && cs[j] == ':' {
        if j + 1 < n && int_start_ch(cs[j + 1]) {
            match array_index(cs, j + 1) {
                Ok((st, k)) => {
                    if k < n && cs[k] == ']' {
                        return Ok((Selector::ArraySlice(start, end, Some(st)), k + 1));
                    }
                    return Err(perr("expected a closing bracket", cs, j));
                },
                Err(m) => {
                    return Err(m);
                },
            }
        }
        if j + 1 < n && cs[j + 1] == ']' {
            return Ok((Selector::ArraySlice(start, end, None), j + 2));
        }
        return Err(perr("expected a slice step", cs, j));
    }
    Err(perr("expected a colon or closing bracket", cs, j))
}

/// A slice selector from its first `:` at `cs[i]`.
fn slice_sel(cs: &Vec<char>, i: usize, start: Option<isize>) -> (r: Result<
    (Selector, usize),
    String,
>)
    requires
        i < cs@.len(),
    ensures
        match r {
            Ok((sel, k)) => spec_slice(cs@, i as int, opt_int(start)) == Some((sel@, k as int))
                && i < k <= cs@.len(),
            Err(_) => spec_slice(cs@, i as int, opt_int(start)) is None,
        },
{
    let n = cs.len();
    if i + 1 < n && int_start_ch(cs[i + 1]) {
        match array_index(cs, i + 1) {
            Ok((e, j)) => slice_tail_sel(cs, j, start, Some(e)),
            Err(m) => Err(m),
        }
    } else {
        slice_tail_sel(cs, i + 1, start, None)
    }
}

/// The inside of a bracket group, from the position after `[`.
fn bracket_sel(cs: &Vec<char>, i: usize) -> (r: Result<(Selector, usize), String>)
    requires
        i <= cs@.len(),
    ensures
        match r {
            Ok((sel, j)) => spec_bracket(cs@, i as int) == Some((sel@, j as int)) && i < j
                <= cs@.len(),
            Err(m) => spec_bracket(cs@, i as int) is None && ((i < cs@.len() && cs@[i as int]
                == '?') ==> crate::util::has_substring(m@, "unimplemented"@)),
        },
{
    let n = cs.len();
    if i >= n {
        return Err(perr("expected a bracket selector", cs, i));
    }
    let c = cs[i];
    if c == '*' {
        if i + 1 < n && cs[i + 1] == ']' {
            return Ok((Selector::Wildcard, i + 2));
        }
        return Err(perr("expected a closing bracket", cs, i));
    }
    if c == '\'' || c == '"' {
        match quoted_name(cs, i) {
            Ok((t, j)) => {
                if j < n && cs[j] == ']' {
                    return Ok((Selector::DotMemberName(t), j + 1));
                }
                if j < n && cs[j] == ',' {
                    let ghost tv = t@;
                    let mut acc: Vec<UnionMember> = Vec::new();
                    acc.push(UnionMember::MemberName(t));
                    proof {
                        assert(acc@.map_values(|m: UnionMember| m@) =~= seq![UmV::MemberName(tv)]);
                    }
                    return union_sel(cs, j + 1, acc);
                }
                return Err(perr("expected a closing bracket", cs, i));
            },
            Err(m) => {
                return Err(m);
            },
        }
    }
    if int_start_ch(c) {
        match array_index(cs, i) {
            Ok((v, j)) => {
                if j < n && cs[j] == ']' {
                    return Ok((Selector::ArrayIndex(v), j + 1));
                }
                if j < n && cs[j] == ',' {
                    let mut acc: Vec<UnionMember> = Vec::new();
                    acc.push(UnionMember::ArrayIndex(v));
                    proof {
                        assert(acc@.map_values(|m: UnionMember| m@) =~= seq![
                            UmV::ArrayIndex(v as int),
                        ]);
                    }
                    return union_sel(cs, j + 1, acc);
                }
                if j < n && cs[j] == ':' {
                    return slice_sel(cs, j, Some(v));
                }
                return Err(perr("expected a closing bracket", cs, i));
            },
            Err(m) => {
                return Err(m);
            },
        }
    }
    if c == ':' {
        return slice_sel(cs, i, None);
    }
    if c == '?' {
        let mut m = String::from_str("unimplemented");
        m.append(": ");
        let rest = string_range(cs, i, cs.len());
        m.append(rest.as_str());
        proof {
            let lead = "unimplemented"@;
            assert(m@ == (lead + ": "@) + rest@);
            assert(m@.len() == lead.len() + ": "@.len() + rest@.len());
            assert forall|t: int| 0 <= t < lead.len() implies m@.subrange(
                0,
                lead.len() as int,
            )[t] == lead[t] by {
                assert(m@.subrange(0, lead.len() as int)[t] == m@[t]);
                assert((lead + ": "@)[t] == lead[t]);
            }
            assert(m@.subrange(0, lead.len() as int) =~= lead);
            let k0: int = 0;
            assert(m@.subrange(k0, k0 + lead.len() as int) == lead);
            assert(crate::util::has_substring(m@, lead));
        }
        return Err(m);
    }
    Err(perr("unsupported bracket selector", cs, i))
}

/// One step of the query at `cs[i]`.
fn step_sel(cs: &Vec<char>, i: usize) -> (r: Result<(Selector, usize), String>)
    requires
        i < cs@.len(),
    ensures
        match r {
            Ok((sel, j)) => spec_step(cs@, i as int) == Some((sel@, j as int)) && i < j
                <= cs@.len(),
            Err(m) => spec_step(cs@, i as int) is None && (is_filter_step(cs@, i as int)
                ==> crate::util::has_substring(m@, "unimplemented"@)),
        },
{
    let n = cs.len();
    let c = cs[i];
    if c == '.' {
        if i + 1 < n && cs[i + 1] == '.' {
            descendant_sel(cs, i + 2)
        } else {
            dot_tail_sel(cs, i + 1)
        }
    } else if c == '[' {
        bracket_sel(cs, i + 1)
    } else {
        Err(perr("unrecognized step", cs, i))
    }
}

/// Compile a JSONPath query string into its selector sequence. The result
/// always begins with `Root`; a syntax error, an out-of-range integer, a
/// bad escape sequence, an unterminated quote, or a filter selector
/// (recognized but deliberately unimplemented) is reported as `Err`.
#[verifier::loop_isolation(false)]
pub fn parse(source: &str) -> (r: Result<Vec<Selector>, String>)
    ensures
        match r {
            Ok(sels) => spec_parse(source@) == Some(sels_view(sels@)),
            Err(m) => spec_parse(source@) is None && (fails_at_filter(source@)
                ==> crate::util::has_substring(m@, "unimplemented"@)),
        },
{
    let cs = str_chars(source);
    let mut out: Vec<Selector> = Vec::new();
    out.push(Selector::Root);
    let mut i: usize = 0;
    if cs.len() > 0 && cs[0] == '$' {
        i = 1;
    }
    proof {
        assert(sels_view(out@) =~= seq![SelV::Root]);
        match spec_steps(cs@, i as int) {
            Some(rest) => {
                assert(seq![SelV::Root] + rest =~= sels_view(out@) + rest);
            },
            None => {},
        }
    }
    while i < cs.len()
        invariant
            i <= cs@.len(),
            steps_fail_at_filter(cs@, i as int) == fails_at_filter(source@),
            match spec_steps(cs@, i as int) {
                Some(rest) => spec_parse(source@) == Some(sels_view(out@) + rest),
                None => spec_parse(source@) is None,
            },
        decreases cs@.len() - i,
    {
        match step_sel(&cs, i) {
            Ok((sel, j)) => {
                let ghost pre = out@;
                let ghost selv = sel@;
                out.push(sel);
                proof {
                    assert(sels_view(out@) =~= sels_view(pre).push(selv));
                    match spec_steps(cs@, j as int) {
                        Some(rest2) => {
                            assert(sels_view(pre) + (seq![selv] + rest2) =~= sels_view(out@)
                                + rest2);
                        },
                        None => {},
                    }
                }
                i = j;
            },
            Err(m) => {
                return Err(m);
            },
        }
    }
    proof {
        assert(spec_steps(cs@, i as int) == Some(Seq::<SelV>::empty()));
        assert(sels_view(out@) + Seq::<SelV>::empty() =~= sels_view(out@));
    }
    Ok(out)
}

} // verus!

//! Character classes such as `['a'-'z'; "_"; #30-#39; Ll]`.
//!
//! The content of a class is split into parts at `;`, each part into elements
//! at `,` or `|`; every piece is trimmed.  An element is a hex range
//! `#30-#39`, a quoted range `'a'-'z'`, a hex character `#41`, a quoted string
//! of characters `'abc'`, or a Unicode category name of one or two bytes.  A
//! character is in the class if some element admits it.
use vstd::prelude::*;

use crate::text::{
    char_is_alphabetic, char_is_numeric, is_white_space, str_to_chars, unicode_alphabetic,
    unicode_numeric, white_space,
};

verus! {

// ---------------------------------------------------------------------------
// Character tests that the categories use
// ---------------------------------------------------------------------------

/// Whether `c` has the Unicode `Lowercase` property (`char::is_lowercase`).
pub uninterp spec fn unicode_lowercase(c: char) -> bool;

/// Whether `c` has the Unicode `Uppercase` property (`char::is_uppercase`).
pub uninterp spec fn unicode_uppercase(c: char) -> bool;

/// `char::is_lowercase`: the result is named `unicode_lowercase`.
#[verifier::external_body]
pub(crate) fn char_is_lowercase(c: char) -> (r: bool)
    ensures
        r == unicode_lowercase(c),
{
    c.is_lowercase()
}

/// `char::is_uppercase`: the result is named `unicode_uppercase`.
#[verifier::external_body]
pub(crate) fn char_is_uppercase(c: char) -> (r: bool)
    ensures
        r == unicode_uppercase(c),
{
    c.is_uppercase()
}

/// ASCII punctuation: `!`-`/`, `:`-`@`, `[`-`` ` ``, `{`-`~`.
pub open spec fn ascii_punctuation(c: char) -> bool {
    ('!' <= c && c <= '/') || (':' <= c && c <= '@') || ('[' <= c && c <= '`') || ('{' <= c
        && c <= '~')
}

/// The general category `Cc`: U+0000 to U+001F and U+007F to U+009F.
pub open spec fn control_char(c: char) -> bool {
    (c as u32) <= 0x1f || (0x7f <= (c as u32) && (c as u32) <= 0x9f)
}

/// What a category name admits.
pub open spec fn category_admits(cat: Seq<char>, c: char) -> bool {
    if cat == "L"@ || cat == "Lm"@ || cat == "Lo"@ {
        unicode_alphabetic(c)
    } else if cat == "Ll"@ {
        unicode_lowercase(c)
    } else if cat == "Lu"@ || cat == "Lt"@ {
        unicode_uppercase(c)
    } else if cat == "N"@ || cat == "Nl"@ || cat == "No"@ {
        unicode_numeric(c)
    } else if cat == "Nd"@ {
        unicode_numeric(c) && '0' <= c && c <= '9'
    } else if cat == "P"@ {
        ascii_punctuation(c)
    } else if cat == "S"@ {
        !(unicode_alphabetic(c) || unicode_numeric(c)) && !white_space(c)
    } else if cat == "Z"@ {
        white_space(c)
    } else if cat == "Zs"@ {
        c == ' '
    } else if cat == "Zl"@ {
        c == '\u{2028}'
    } else if cat == "Zp"@ {
        c == '\u{2029}'
    } else if cat == "C"@ {
        control_char(c)
    } else {
        false
    }
}

// ---------------------------------------------------------------------------
// Splitting and trimming
// ---------------------------------------------------------------------------

/// The first index of `c` in `s`.
pub open spec fn index_of(s: Seq<char>, c: char) -> Option<int>
    decreases s.len(),
{
    if s.len() == 0 {
        None
    } else if s[0] == c {
        Some(0)
    } else {
        match index_of(s.skip(1), c) {
            Some(i) => Some(i + 1),
            None => None,
        }
    }
}

/// Leading whitespace removed.
pub open spec fn trim_start(s: Seq<char>) -> Seq<char>
    decreases s.len(),
{
    if s.len() > 0 && white_space(s[0]) {
        trim_start(s.skip(1))
    } else {
        s
    }
}

/// Trailing whitespace removed.
pub open spec fn trim_end(s: Seq<char>) -> Seq<char>
    decreases s.len(),
{
    if s.len() > 0 && white_space(s.last()) {
        trim_end(s.drop_last())
    } else {
        s
    }
}

/// Whitespace removed at both ends (`str::trim`).
pub open spec fn trim(s: Seq<char>) -> Seq<char> {
    trim_end(trim_start(s))
}

/// Every leading and trailing `c` removed (`str::trim_matches(c)`).
pub open spec fn trim_char(s: Seq<char>, c: char) -> Seq<char>
    decreases s.len(),
{
    if s.len() > 0 && s[0] == c {
        trim_char(s.skip(1), c)
    } else if s.len() > 0 && s.last() == c {
        trim_char(s.drop_last(), c)
    } else {
        s
    }
}

/// Whether a character separates elements inside a part.
pub open spec fn is_element_sep(c: char) -> bool {
    c == ',' || c == '|'
}

/// The first index of a character satisfying `sep`.
pub open spec fn first_sep(s: Seq<char>, semicolon: bool) -> Option<int>
    decreases s.len(),
{
    if s.len() == 0 {
        None
    } else if (semicolon && s[0] == ';') || (!semicolon && is_element_sep(s[0])) {
        Some(0)
    } else {
        match first_sep(s.skip(1), semicolon) {
            Some(i) => Some(i + 1),
            None => None,
        }
    }
}

/// The pieces of `s` between separators (`;` if `semicolon`, else `,`/`|`),
/// each trimmed; there is always at least one piece.
pub open spec fn split_trim(s: Seq<char>, semicolon: bool) -> Seq<Seq<char>>
    decreases s.len(),
{
    match first_sep(s, semicolon) {
        None => seq![trim(s)],
        Some(i) => if 0 <= i < s.len() {
            seq![trim(s.take(i))] + split_trim(s.skip(i + 1), semicolon)
        } else {
            seq![trim(s)]
        },
    }
}

/// The trimmed parts of the trimmed content.
pub open spec fn class_parts(content: Seq<char>) -> Seq<Seq<char>> {
    split_trim(trim(content), true)
}

// ---------------------------------------------------------------------------
// Elements
// ---------------------------------------------------------------------------

/// The value of a hexadecimal digit.
pub open spec fn hex_digit(c: char) -> Option<u32> {
    if '0' <= c && c <= '9' {
        Some((c as u32 - '0' as u32) as u32)
    } else if 'a' <= c && c <= 'f' {
        Some((c as u32 - 'a' as u32 + 10) as u32)
    } else if 'A' <= c && c <= 'F' {
        Some((c as u32 - 'A' as u32 + 10) as u32)
    } else {
        None
    }
}

/// The value of hexadecimal digits read from the left onto `acc`, if all are
/// digits and the value fits in 32 bits.
pub open spec fn hex_value_from(s: Seq<char>, acc: nat) -> Option<nat>
    decreases s.len(),
{
    if s.len() == 0 {
        Some(acc)
    } else {
        match hex_digit(s[0]) {
            None => None,
            Some(d) => if acc * 16 + d > 0xffff_ffff {
                None
            } else {
                hex_value_from(s.skip(1), (acc * 16 + d) as nat)
            },
        }
    }
}

/// `u32::from_str_radix(s, 16)`: digits, optionally after one `+`.
pub open spec fn hex_u32(s: Seq<char>) -> Option<nat> {
    if s.len() == 0 {
        None
    } else if s[0] == '+' {
        if s.len() == 1 {
            None
        } else {
            hex_value_from(s.skip(1), 0)
        }
    } else {
        hex_value_from(s, 0)
    }
}

/// Whether a number is a Unicode scalar value (`char::from_u32` succeeds).
pub open spec fn is_scalar(v: nat) -> bool {
    v < 0xD800 || (0xE000 <= v && v < 0x110000)
}

/// `#hex` as a character.
pub open spec fn hex_char(s: Seq<char>) -> Option<char> {
    if s.len() == 0 || s[0] != '#' {
        None
    } else {
        match hex_u32(s.skip(1)) {
            Some(v) => if is_scalar(v) {
                Some(v as char)
            } else {
                None
            },
            None => None,
        }
    }
}

/// The number of bytes of `s` in UTF-8.
pub open spec fn utf8_len(s: Seq<char>) -> nat
    decreases s.len(),
{
    if s.len() == 0 {
        0
    } else {
        utf8_len(s.drop_last()) + (if (s.last() as u32) < 0x80 {
            1nat
        } else if (s.last() as u32) < 0x800 {
            2nat
        } else if (s.last() as u32) < 0x10000 {
            3nat
        } else {
            4nat
        })
    }
}

pub open spec fn is_quote(c: char) -> bool {
    c == '\'' || c == '"'
}

/// The range `lo-hi` of a hex element `#x-#y`, if it is one.
pub open spec fn hex_range(e: Seq<char>) -> Option<(char, char)> {
    match index_of(e.skip(1), '-') {
        Some(d) => {
            let k = d + 1;
            let end_part = e.skip(k + 1);
            if end_part.len() > 0 && end_part[0] == '#' {
                match (hex_char(e.take(k)), hex_char(end_part)) {
                    (Some(a), Some(b)) => Some((a, b)),
                    _ => None,
                }
            } else {
                None
            }
        },
        None => None,
    }
}

/// The range of a quoted element `'x'-'y'`, if it is one.
pub open spec fn quoted_range(e: Seq<char>) -> Option<(char, char)> {
    let q = e[0];
    match index_of(e.skip(1), q) {
        Some(f) => {
            let fc = f + 1;
            let after_close = e.skip(fc + 1);
            if after_close.len() > 1 && after_close[0] == '-' {
                let after_dash = after_close.skip(1);
                if is_quote(after_dash[0]) {
                    let start_str = e.subrange(1, fc);
                    match index_of(after_dash.skip(1), after_dash[0]) {
                        Some(ec) => {
                            let end_str = after_dash.subrange(1, ec + 1);
                            if start_str.len() > 0 && end_str.len() > 0 {
                                Some((start_str[0], end_str[0]))
                            } else {
                                None
                            }
                        },
                        None => None,
                    }
                } else {
                    None
                }
            } else {
                None
            }
        },
        None => None,
    }
}

/// The characters of a quoted element without its quotes.
pub open spec fn unquoted(e: Seq<char>) -> Seq<char> {
    trim_char(trim_char(e, '\''), '"')
}

/// Whether element `e` admits `c`.
pub open spec fn element_admits(e: Seq<char>, c: char) -> bool {
    if e.len() > 0 && e[0] == '#' && e.contains('-') {
        match hex_range(e) {
            Some((a, b)) => a <= c && c <= b,
            None => hex_char(e) == Some(c),
        }
    } else if e.len() > 0 && is_quote(e[0]) && e.contains('-') {
        match quoted_range(e) {
            Some((a, b)) => a <= c && c <= b,
            None => unquoted(e).contains(c),
        }
    } else if e.len() > 0 && e[0] == '#' {
        hex_char(e) == Some(c)
    } else if e.len() > 0 && ((e[0] == '\'' && e.last() == '\'') || (e[0] == '"' && e.last() == '"')) {
        unquoted(e).contains(c)
    } else if utf8_len(e) == 1 || utf8_len(e) == 2 {
        category_admits(e, c)
    } else {
        false
    }
}

/// Whether the class with this content admits `c`: some element of some part
/// admits it.
pub open spec fn class_admits(content: Seq<char>, c: char) -> bool {
    exists|j: int, k: int|
        0 <= j < class_parts(content).len() && 0 <= k < split_trim(class_parts(content)[j], false).len()
            && element_admits(#[trigger] split_trim(class_parts(content)[j], false)[k], c)
}


// ---------------------------------------------------------------------------
// Lemmas on the scanning functions
// ---------------------------------------------------------------------------

proof fn lemma_index_of_found(s: Seq<char>, c: char)
    ensures
        index_of(s, c) matches Some(i) ==> 0 <= i < s.len() && s[i] == c,
    decreases s.len(),
{
    if s.len() > 0 && s[0] != c {
        lemma_index_of_found(s.skip(1), c);
    }
}

/// A hex range `#x-#y` is inclusive at both ends: it admits exactly the
/// characters from its first to its last, both of them included.
pub proof fn law_hex_range_inclusive(e: Seq<char>, c: char, a: char, b: char)
    requires
        e.len() > 0,
        e[0] == '#',
        hex_range(e) == Some((a, b)),
    ensures
        element_admits(e, c) <==> (a <= c && c <= b),
        a <= b ==> element_admits(e, a) && element_admits(e, b),
{
    lemma_index_of_found(e.skip(1), '-');
    let d = index_of(e.skip(1), '-')->0;
    assert(e.skip(1)[d] == '-');
    assert(e[d + 1] == '-');
    assert(e.contains('-'));
}

pub proof fn lemma_index_of(s: Seq<char>, c: char, i: int)
    requires
        0 <= i <= s.len(),
        forall|j: int| 0 <= j < i ==> s[j] != c,
        i < s.len() ==> s[i] == c,
    ensures
        index_of(s, c) == (if i < s.len() { Some(i) } else { None::<int> }),
    decreases i,
{
    if i > 0 {
        lemma_index_of(s.skip(1), c, i - 1);
    }
}

pub proof fn lemma_first_sep(s: Seq<char>, semi: bool, i: int)
    requires
        0 <= i <= s.len(),
        forall|j: int| 0 <= j < i ==> !((semi && s[j] == ';') || (!semi && is_element_sep(s[j]))),
        i < s.len() ==> ((semi && s[i] == ';') || (!semi && is_element_sep(s[i]))),
    ensures
        first_sep(s, semi) == (if i < s.len() { Some(i) } else { None::<int> }),
    decreases i,
{
    if i > 0 {
        lemma_first_sep(s.skip(1), semi, i - 1);
    }
}

pub proof fn lemma_trim_start(s: Seq<char>, i: int)
    requires
        0 <= i <= s.len(),
        forall|j: int| 0 <= j < i ==> white_space(s[j]),
        i < s.len() ==> !white_space(s[i]),
    ensures
        trim_start(s) == s.skip(i),
    decreases i,
{
    if i > 0 {
        lemma_trim_start(s.skip(1), i - 1);
        assert(s.skip(1).skip(i - 1) == s.skip(i));
    } else {
        assert(s.skip(0) == s);
    }
}

pub proof fn lemma_trim_end(s: Seq<char>, i: int)
    requires
        0 <= i <= s.len(),
        forall|j: int| i <= j < s.len() ==> white_space(s[j]),
        i > 0 ==> !white_space(s[i - 1]),
    ensures
        trim_end(s) == s.take(i),
    decreases s.len() - i,
{
    if i < s.len() {
        lemma_trim_end(s.drop_last(), i);
        assert(s.drop_last().take(i) == s.take(i));
    } else {
        assert(s.take(i) == s);
    }
}

pub proof fn lemma_trim_char_front(s: Seq<char>, c: char, i: int)
    requires
        0 <= i <= s.len(),
        forall|j: int| 0 <= j < i ==> s[j] == c,
        i < s.len() ==> s[i] != c,
    ensures
        trim_char(s, c) == trim_char(s.skip(i), c),
    decreases i,
{
    if i > 0 {
        lemma_trim_char_front(s.skip(1), c, i - 1);
        assert(s.skip(1).skip(i - 1) == s.skip(i));
    } else {
        assert(s.skip(0) == s);
    }
}

pub proof fn lemma_trim_char_back(s: Seq<char>, c: char, i: int)
    requires
        0 <= i <= s.len(),
        s.len() > 0 ==> s[0] != c,
        forall|j: int| i <= j < s.len() ==> s[j] == c,
        i > 0 ==> s[i - 1] != c,
    ensures
        trim_char(s, c) == s.take(i),
    decreases s.len() - i,
{
    if i < s.len() {
        if s.len() > 1 || i > 0 {
            lemma_trim_char_back(s.drop_last(), c, i);
            assert(s.drop_last().take(i) == s.take(i));
        } else {
            assert(s.drop_last().len() == 0);
            assert(s.take(i) =~= Seq::<char>::empty());
        }
    } else {
        assert(s.take(i) == s);
    }
}

// ---------------------------------------------------------------------------
// Executable scanning
// ---------------------------------------------------------------------------

/// The characters `v[lo..hi]`.
pub fn slice_of(v: &Vec<char>, lo: usize, hi: usize) -> (r: Vec<char>)
    requires
        lo <= hi <= v.len(),
    ensures
        r@ == v@.subrange(lo as int, hi as int),
{
    let mut r: Vec<char> = Vec::new();
    let mut i = lo;
    while i < hi
        invariant
            lo <= i <= hi <= v.len(),
            r@ == v@.subrange(lo as int, i as int),
        decreases hi - i,
    {
        r.push(v[i]);
        proof {
            assert(v@.subrange(lo as int, i + 1) == v@.subrange(lo as int, i as int).push(v@[i as int]));
        }
        i = i + 1;
    }
    r
}

/// The index of the first `c` in `v[from..]`, relative to `from`.
pub fn find_char(v: &Vec<char>, from: usize, c: char) -> (r: Option<usize>)
    requires
        from <= v.len(),
    ensures
        match index_of(v@.skip(from as int), c) {
            Some(i) => r matches Some(j) && j as int == i,
            None => r is None,
        },
        r matches Some(i) ==> from + i < v.len() && v@[from + i] == c,
{
    let ghost s = v@.skip(from as int);
    let mut i = from;
    while i < v.len()
        invariant
            from <= i <= v.len(),
            s == v@.skip(from as int),
            forall|j: int| 0 <= j < i - from ==> s[j] != c,
        decreases v.len() - i,
    {
        if v[i] == c {
            proof {
                lemma_index_of(s, c, i - from);
            }
            return Some(i - from);
        }
        i = i + 1;
    }
    proof {
        lemma_index_of(s, c, i - from);
    }
    None
}

/// Whether `c` occurs in `v`.
pub fn contains_char(v: &Vec<char>, c: char) -> (r: bool)
    ensures
        r == v@.contains(c),
{
    let mut i: usize = 0;
    while i < v.len()
        invariant
            i <= v.len(),
            forall|j: int| 0 <= j < i ==> v@[j] != c,
        decreases v.len() - i,
    {
        if v[i] == c {
            return true;
        }
        i = i + 1;
    }
    false
}

/// `v` with whitespace removed at both ends.
pub fn trim_vec(v: &Vec<char>) -> (r: Vec<char>)
    ensures
        r@ == trim(v@),
{
    let mut a: usize = 0;
    while a < v.len() && is_white_space(v[a])
        invariant
            a <= v.len(),
            forall|j: int| 0 <= j < a ==> white_space(v@[j]),
        decreases v.len() - a,
    {
        a = a + 1;
    }
    proof {
        lemma_trim_start(v@, a as int);
    }
    let mut b: usize = v.len();
    while b > a && is_white_space(v[b - 1])
        invariant
            a <= b <= v.len(),
            forall|j: int| b <= j < v.len() ==> white_space(v@[j]),
        decreases b,
    {
        b = b - 1;
    }
    let ghost t = v@.skip(a as int);
    proof {
        assert forall|j: int| (b - a) <= j < t.len() implies white_space(t[j]) by {
            assert(t[j] == v@[j + a]);
        }
        if b > a {
            assert(t[b - a - 1] == v@[b - 1]);
        }
        lemma_trim_end(t, b - a);
        assert(t.take(b - a) == v@.subrange(a as int, b as int));
    }
    slice_of(v, a, b)
}

/// `v` with every leading and trailing `c` removed.
pub fn trim_char_vec(v: &Vec<char>, c: char) -> (r: Vec<char>)
    ensures
        r@ == trim_char(v@, c),
{
    let mut a: usize = 0;
    while a < v.len() && v[a] == c
        invariant
            a <= v.len(),
            forall|j: int| 0 <= j < a ==> v@[j] == c,
        decreases v.len() - a,
    {
        a = a + 1;
    }
    proof {
        lemma_trim_char_front(v@, c, a as int);
    }
    let mut b: usize = v.len();
    while b > a && v[b - 1] == c
        invariant
            a <= b <= v.len(),
            forall|j: int| b <= j < v.len() ==> v@[j] == c,
        decreases b,
    {
        b = b - 1;
    }
    let ghost t = v@.skip(a as int);
    proof {
        assert forall|j: int| (b - a) <= j < t.len() implies t[j] == c by {
            assert(t[j] == v@[j + a]);
        }
        if b > a {
            assert(t[b - a - 1] == v@[b - 1]);
        }
        if t.len() > 0 {
            assert(t[0] == v@[a as int]);
        }
        lemma_trim_char_back(t, c, b - a);
        assert(t.take(b - a) == v@.subrange(a as int, b as int));
    }
    slice_of(v, a, b)
}

/// The pieces of `v` between separators, each trimmed.
pub fn split_trim_vec(v: &Vec<char>, semicolon: bool) -> (r: Vec<Vec<char>>)
    ensures
        r@.map_values(|p: Vec<char>| p@) == split_trim(v@, semicolon),
{
    let mut out: Vec<Vec<char>> = Vec::new();
    let mut start: usize = 0;
    let mut i: usize = 0;
    proof {
        assert(v@.skip(0) == v@);
        assert(out@.map_values(|p: Vec<char>| p@) + split_trim(v@, semicolon) =~= split_trim(v@, semicolon));
    }
    while i < v.len()
        invariant
            start <= i <= v.len(),
            forall|j: int| start <= j < i ==> !((semicolon && v@[j] == ';') || (!semicolon && is_element_sep(v@[j]))),
            split_trim(v@, semicolon) == out@.map_values(|p: Vec<char>| p@) + split_trim(v@.skip(start as int), semicolon),
        decreases v.len() - i,
    {
        let c = v[i];
        if (semicolon && c == ';') || (!semicolon && (c == ',' || c == '|')) {
            let piece = slice_of(v, start, i);
            let t = trim_vec(&piece);
            let ghost rest = v@.skip(start as int);
            proof {
                assert forall|j: int| 0 <= j < i - start implies !((semicolon && rest[j] == ';') || (!semicolon && is_element_sep(rest[j]))) by {
                    assert(rest[j] == v@[j + start]);
                }
                assert(rest[i - start] == c);
                lemma_first_sep(rest, semicolon, i - start);
                assert(rest.take(i - start) == piece@);
                assert(rest.skip(i - start + 1) == v@.skip(i + 1));
            }
            let ghost prev = out@;
            out.push(t);
            proof {
                assert(out@.map_values(|p: Vec<char>| p@) == prev.map_values(|p: Vec<char>| p@).push(t@));
            }
            start = i + 1;
        }
        i = i + 1;
    }
    let piece = slice_of(v, start, v.len());
    let t = trim_vec(&piece);
    let ghost rest = v@.skip(start as int);
    proof {
        assert forall|j: int| 0 <= j < rest.len() implies !((semicolon && rest[j] == ';') || (!semicolon && is_element_sep(rest[j]))) by {
            assert(rest[j] == v@[j + start]);
        }
        lemma_first_sep(rest, semicolon, rest.len() as int);
        assert(rest == piece@);
    }
    let ghost prev = out@;
    out.push(t);
    proof {
        assert(out@.map_values(|p: Vec<char>| p@) == prev.map_values(|p: Vec<char>| p@).push(t@));
    }
    out
}


// ---------------------------------------------------------------------------
// Executable element tests
// ---------------------------------------------------------------------------

/// `char::from_u32`: the character with this code if it is a Unicode scalar
/// value (below U+D800, or from U+E000 to U+10FFFF), as the standard library
/// documents; `None` otherwise.
#[verifier::external_body]
pub(crate) fn char_from_u32(v: u32) -> (r: Option<char>)
    ensures
        r == (if is_scalar(v as nat) { Some(v as char) } else { None::<char> }),
{
    char::from_u32(v)
}

/// The value of a hexadecimal digit, either case.
pub fn hex_digit_exec(c: char) -> (r: Option<u32>)
    ensures
        r == hex_digit(c),
{
    if '0' <= c && c <= '9' {
        Some(c as u32 - '0' as u32)
    } else if 'a' <= c && c <= 'f' {
        Some(c as u32 - 'a' as u32 + 10)
    } else if 'A' <= c && c <= 'F' {
        Some(c as u32 - 'A' as u32 + 10)
    } else {
        None
    }
}

/// The value of the hex digits `v[from..]`.
fn hex_value_exec(v: &Vec<char>, from: usize) -> (r: Option<u32>)
    requires
        from <= v.len(),
    ensures
        match hex_value_from(v@.skip(from as int), 0) {
            Some(n) => r == Some(n as u32),
            None => r is None,
        },
{
    let mut acc: u64 = 0;
    let mut i = from;
    proof {
        assert(v@.skip(from as int).skip(0) == v@.skip(from as int));
    }
    while i < v.len()
        invariant
            from <= i <= v.len(),
            acc <= 0xffff_ffff,
            hex_value_from(v@.skip(from as int), 0) == hex_value_from(v@.skip(i as int), acc as nat),
        decreases v.len() - i,
    {
        let ghost rest = v@.skip(i as int);
        assert(rest[0] == v@[i as int]);
        assert(rest.skip(1) == v@.skip(i + 1));
        match hex_digit_exec(v[i]) {
            None => {
                return None;
            },
            Some(d) => {
                if acc * 16 + d as u64 > 0xffff_ffff {
                    return None;
                }
                acc = acc * 16 + d as u64;
            },
        }
        i = i + 1;
    }
    proof {
        assert(v@.skip(i as int).len() == 0);
    }
    Some(acc as u32)
}

/// `#hex` read from `v[lo..hi]`.
fn hex_char_exec(v: &Vec<char>) -> (r: Option<char>)
    ensures
        r == hex_char(v@),
{
    if v.len() == 0 || v[0] != '#' {
        return None;
    }
    let ghost digits = v@.skip(1);
    if v.len() == 1 {
        return None;
    }
    let n = if v[1] == '+' {
        if v.len() == 2 {
            return None;
        }
        proof {
            assert(digits.skip(1) == v@.skip(2));
        }
        hex_value_exec(v, 2)
    } else {
        hex_value_exec(v, 1)
    };
    proof {
        lemma_hex_value_bound(v@.skip(2), 0);
        lemma_hex_value_bound(v@.skip(1), 0);
    }
    match n {
        Some(x) => char_from_u32(x),
        None => None,
    }
}

pub proof fn lemma_hex_value_bound(s: Seq<char>, acc: nat)
    requires
        acc <= 0xffff_ffff,
    ensures
        hex_value_from(s, acc) matches Some(n) ==> n <= 0xffff_ffff,
    decreases s.len(),
{
    if s.len() > 0 {
        match hex_digit(s[0]) {
            None => {},
            Some(d) => if acc * 16 + d <= 0xffff_ffff {
                lemma_hex_value_bound(s.skip(1), (acc * 16 + d) as nat);
            },
        }
    }
}

/// The range of a hex element, if it is one.
fn hex_range_exec(e: &Vec<char>) -> (r: Option<(char, char)>)
    requires
        e.len() > 0,
    ensures
        r == hex_range(e@),
{
    match find_char(e, 1, '-') {
        Some(d) => {
            let k = d + 1;
            let end_part = slice_of(e, k + 1, e.len());
            proof {
                assert(end_part@ == e@.skip(k + 1));
            }
            if end_part.len() > 0 && end_part[0] == '#' {
                let start_part = slice_of(e, 0, k);
                proof {
                    assert(start_part@ == e@.take(k as int));
                }
                match (hex_char_exec(&start_part), hex_char_exec(&end_part)) {
                    (Some(a), Some(b)) => Some((a, b)),
                    _ => None,
                }
            } else {
                None
            }
        },
        None => None,
    }
}

/// The range of a quoted element, if it is one.
fn quoted_range_exec(e: &Vec<char>) -> (r: Option<(char, char)>)
    requires
        e.len() > 0,
    ensures
        r == quoted_range(e@),
{
    let q = e[0];
    match find_char(e, 1, q) {
        Some(f) => {
            let fc = f + 1;
            let ghost after_close = e@.skip(fc + 1);
            if e.len() - (fc + 1) > 1 && e[fc + 1] == '-' {
                let ghost after_dash = after_close.skip(1);
                proof {
                    assert(after_close[0] == e@[fc + 1]);
                    assert(after_dash[0] == e@[fc + 2]);
                    assert(after_dash == e@.skip(fc + 2));
                }
                let eq = e[fc + 2];
                if eq == '\'' || eq == '"' {
                    proof {
                        assert(after_dash.skip(1) == e@.skip(fc + 3));
                    }
                    match find_char(e, fc + 3, eq) {
                        Some(ec) => {
                            if fc > 1 && ec > 0 {
                                proof {
                                    assert(e@.subrange(1, fc as int)[0] == e@[1]);
                                    assert(after_dash.subrange(1, ec + 1)[0] == e@[fc + 3]);
                                }
                                Some((e[1], e[fc + 3]))
                            } else {
                                None
                            }
                        },
                        None => None,
                    }
                } else {
                    None
                }
            } else {
                None
            }
        },
        None => None,
    }
}

/// Whether category name `e` (one or two characters) admits `c`.
fn category_admits_exec(e: &Vec<char>, c: char) -> (r: bool)
    requires
        e.len() == 1 || e.len() == 2,
    ensures
        r == category_admits(e@, c),
{
    proof {
        reveal_strlit("L");
        reveal_strlit("Lm");
        reveal_strlit("Lo");
        reveal_strlit("Ll");
        reveal_strlit("Lu");
        reveal_strlit("Lt");
        reveal_strlit("N");
        reveal_strlit("Nl");
        reveal_strlit("No");
        reveal_strlit("Nd");
        reveal_strlit("P");
        reveal_strlit("S");
        reveal_strlit("Z");
        reveal_strlit("Zs");
        reveal_strlit("Zl");
        reveal_strlit("Zp");
        reveal_strlit("C");
    }
    if e.len() == 1 {
        let a = e[0];
        proof {
            assert(e@ =~= seq![a]);
        }
        if a == 'L' {
            proof { assert(e@ =~= "L"@); }
            char_is_alphabetic(c)
        } else if a == 'N' {
            proof { assert(e@ =~= "N"@); }
            char_is_numeric(c)
        } else if a == 'P' {
            proof { assert(e@ =~= "P"@); }
            ('!' <= c && c <= '/') || (':' <= c && c <= '@') || ('[' <= c && c <= '`') || ('{' <= c && c <= '~')
        } else if a == 'S' {
            proof { assert(e@ =~= "S"@); }
            !(char_is_alphabetic(c) || char_is_numeric(c)) && !is_white_space(c)
        } else if a == 'Z' {
            proof { assert(e@ =~= "Z"@); }
            is_white_space(c)
        } else if a == 'C' {
            proof { assert(e@ =~= "C"@); }
            (c as u32) <= 0x1f || (0x7f <= (c as u32) && (c as u32) <= 0x9f)
        } else {
            false
        }
    } else {
        let a = e[0];
        let b = e[1];
        proof {
            assert(e@ =~= seq![a, b]);
        }
        if a == 'L' && b == 'l' {
            proof { assert(e@ =~= "Ll"@); }
            char_is_lowercase(c)
        } else if a == 'L' && (b == 'u' || b == 't') {
            proof { assert(e@ =~= "Lu"@ || e@ =~= "Lt"@); }
            char_is_uppercase(c)
        } else if a == 'L' && (b == 'm' || b == 'o') {
            proof { assert(e@ =~= "Lm"@ || e@ =~= "Lo"@); }
            char_is_alphabetic(c)
        } else if a == 'N' && b == 'd' {
            proof { assert(e@ =~= "Nd"@); }
            char_is_numeric(c) && '0' <= c && c <= '9'
        } else if a == 'N' && (b == 'l' || b == 'o') {
            proof { assert(e@ =~= "Nl"@ || e@ =~= "No"@); }
            char_is_numeric(c)
        } else if a == 'Z' && b == 's' {
            proof { assert(e@ =~= "Zs"@); }
            c == ' '
        } else if a == 'Z' && b == 'l' {
            proof { assert(e@ =~= "Zl"@); }
            c == '\u{2028}'
        } else if a == 'Z' && b == 'p' {
            proof { assert(e@ =~= "Zp"@); }
            c == '\u{2029}'
        } else {
            false
        }
    }
}

pub proof fn lemma_utf8_len_at_least(s: Seq<char>)
    ensures
        utf8_len(s) >= s.len(),
    decreases s.len(),
{
    if s.len() > 0 {
        lemma_utf8_len_at_least(s.drop_last());
    }
}

/// Whether element `e` admits `c`.
pub fn element_admits_exec(e: &Vec<char>, c: char) -> (r: bool)
    ensures
        r == element_admits(e@, c),
{
    let n = e.len();
    if n > 0 && e[0] == '#' && contains_char(e, '-') {
        match hex_range_exec(e) {
            Some((a, b)) => a <= c && c <= b,
            None => hex_char_exec(e) == Some(c),
        }
    } else if n > 0 && (e[0] == '\'' || e[0] == '"') && contains_char(e, '-') {
        match quoted_range_exec(e) {
            Some((a, b)) => a <= c && c <= b,
            None => contains_char(&trim_char_vec(&trim_char_vec(e, '\''), '"'), c),
        }
    } else if n > 0 && e[0] == '#' {
        hex_char_exec(e) == Some(c)
    } else if n > 0 && ((e[0] == '\'' && e[n - 1] == '\'') || (e[0] == '"' && e[n - 1] == '"')) {
        contains_char(&trim_char_vec(&trim_char_vec(e, '\''), '"'), c)
    } else {
        proof {
            lemma_utf8_len_at_least(e@);
            if n >= 1 {
                lemma_utf8_len_at_least(e@.drop_last());
            }
            if n >= 2 {
                lemma_utf8_len_at_least(e@.drop_last().drop_last());
                assert(e@.drop_last().drop_last().len() == 0 || n > 2);
            }
        }
        let small = if n == 1 {
            (e[0] as u32) < 0x800
        } else if n == 2 {
            (e[0] as u32) < 0x80 && (e[1] as u32) < 0x80
        } else {
            false
        };
        proof {
            if n == 1 {
                assert(e@.drop_last().len() == 0);
                assert(e@.last() == e@[0]);
            } else if n == 2 {
                assert(e@.drop_last().drop_last().len() == 0);
                assert(e@.drop_last().last() == e@[0]);
                assert(e@.last() == e@[1]);
            }
            assert(small == (utf8_len(e@) == 1 || utf8_len(e@) == 2));
        }
        if small {
            category_admits_exec(e, c)
        } else {
            false
        }
    }
}

/// Whether the class with content `content` admits `c`.
pub fn class_admits_exec(content: &str, c: char) -> (r: bool)
    ensures
        r == class_admits(content@, c),
{
    let v = str_to_chars(content);
    let t = trim_vec(&v);
    let parts = split_trim_vec(&t, true);
    let ghost ps = class_parts(content@);
    proof {
        assert(parts@.map_values(|p: Vec<char>| p@) == ps);
    }
    let mut j: usize = 0;
    while j < parts.len()
        invariant
            j <= parts.len(),
            parts@.map_values(|p: Vec<char>| p@) == ps,
            ps == class_parts(content@),
            forall|jj: int, k: int|
                0 <= jj < j && 0 <= k < split_trim(ps[jj], false).len()
                    ==> !element_admits(#[trigger] split_trim(ps[jj], false)[k], c),
        decreases parts.len() - j,
    {
        let elems = split_trim_vec(&parts[j], false);
        proof {
            assert(ps[j as int] == parts@[j as int]@);
        }
        let mut k: usize = 0;
        while k < elems.len()
            invariant
                j < parts.len(),
                k <= elems.len(),
                parts@.map_values(|p: Vec<char>| p@) == ps,
                ps == class_parts(content@),
                ps[j as int] == parts@[j as int]@,
                elems@.map_values(|p: Vec<char>| p@) == split_trim(ps[j as int], false),
                forall|kk: int| 0 <= kk < k ==> !element_admits(#[trigger] split_trim(ps[j as int], false)[kk], c),
            decreases elems.len() - k,
        {
            proof {
                assert(split_trim(ps[j as int], false)[k as int] == elems@[k as int]@);
            }
            if element_admits_exec(&elems[k], c) {
                proof {
                    assert(element_admits(split_trim(class_parts(content@)[j as int], false)[k as int], c));
                }
                return true;
            }
            k = k + 1;
        }
        j = j + 1;
    }
    false
}

} // verus!

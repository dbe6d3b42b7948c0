//! Characters, numbers and the escaping that keeps untrusted text on one line.

use vstd::prelude::*;

verus! {

/// `String::push` appends its character to the end of the string.
pub assume_specification[ String::push ](s: &mut String, c: char)
    ensures
        final(s)@ == old(s)@.push(c),
;

/// The name of the text that `{:?}` gives for a string slice.
pub uninterp spec fn debug_text(s: Seq<char>) -> Seq<char>;

/// Whether a text stands in double quotes.
pub open spec fn in_quotes(text: Seq<char>) -> bool {
    text.len() >= 2 && text.first() == '"' && text.last() == '"'
}

/// The formatter `{:?}` of `str`: the text as a string literal, in double quotes,
/// with quotes, backslashes and every character that does not print escaped. What
/// the result is in full is left to its name. Claimed here: it stands in quotes,
/// with nothing between them for the empty text; no control character stands in
/// it; and it is the literal of no other text.
#[verifier::external_body]
pub(crate) fn debug_quoted(s: &str) -> (text: String)
    ensures
        text@ == debug_text(s@),
        printable(text@),
        in_quotes(text@),
        s@.len() == 0 ==> text@.len() == 2,
        forall|other: Seq<char>| #[trigger] debug_text(other) == text@ ==> other == s@,
{
    format!("{s:?}")
}

/// The name of what `char::is_alphanumeric` answers.
pub uninterp spec fn alphanumeric(c: char) -> bool;

/// `char::is_alphanumeric`: the alphabetic characters and those of the
/// categories Nd, Nl and No. A control character (category Cc) is none of these,
/// nor is a double quote (category Po), which is claimed here; the rest is left to
/// the name.
#[verifier::external_body]
fn char_is_alphanumeric(c: char) -> (yes: bool)
    ensures
        yes == alphanumeric(c),
        yes ==> !is_control(c) && c != '"',
{
    c.is_alphanumeric()
}

/// The control characters: U+0000 to U+001F and U+007F to U+009F.
pub open spec fn is_control(c: char) -> bool {
    c as u32 <= 0x1f || 0x7f <= c as u32 <= 0x9f
}

/// No character of `s` is a control character.
pub open spec fn printable(s: Seq<char>) -> bool {
    forall|i: int| 0 <= i < s.len() ==> !is_control(#[trigger] s[i])
}

/// Text joined from printable pieces is printable.
pub broadcast proof fn printable_concat(a: Seq<char>, b: Seq<char>)
    requires
        printable(a),
        printable(b),
    ensures
        #[trigger] printable(a + b),
{
    assert forall|i: int| 0 <= i < (a + b).len() implies !is_control(#[trigger] (a + b)[i]) by {
        if i < a.len() {
            assert((a + b)[i] == a[i]);
        } else {
            assert((a + b)[i] == b[i - a.len()]);
        }
    }
}

/// Appending one printable character keeps text printable.
pub broadcast proof fn printable_push(a: Seq<char>, c: char)
    requires
        printable(a),
        !is_control(c),
    ensures
        #[trigger] printable(a.push(c)),
{
    assert forall|i: int| 0 <= i < a.push(c).len() implies !is_control(#[trigger] a.push(c)[i]) by {
        if i < a.len() {
            assert(a.push(c)[i] == a[i]);
        }
    }
}

/// Whether `c` is a control character.
pub fn char_is_control(c: char) -> (yes: bool)
    ensures
        yes == is_control(c),
{
    let n: u32 = c as u32;
    n <= 0x1f || (0x7f <= n && n <= 0x9f)
}

/// The characters with the White_Space property.
pub open spec fn is_whitespace(c: char) -> bool {
    let n = c as u32;
    ||| 0x9 <= n <= 0xd
    ||| n == 0x20
    ||| n == 0x85
    ||| n == 0xa0
    ||| n == 0x1680
    ||| 0x2000 <= n <= 0x200a
    ||| n == 0x2028
    ||| n == 0x2029
    ||| n == 0x202f
    ||| n == 0x205f
    ||| n == 0x3000
}

/// Whether `c` is white space.
pub fn char_is_whitespace(c: char) -> (yes: bool)
    ensures
        yes == is_whitespace(c),
{
    let n: u32 = c as u32;
    (0x9 <= n && n <= 0xd) || n == 0x20 || n == 0x85 || n == 0xa0 || n == 0x1680 || (0x2000 <= n
        && n <= 0x200a) || n == 0x2028 || n == 0x2029 || n == 0x202f || n == 0x205f || n == 0x3000
}

/// The characters of `s`, in order.
pub fn chars_of(s: &str) -> (chars: Vec<char>)
    ensures
        chars@ == s@,
{
    let n: usize = s.unicode_len();
    let mut out: Vec<char> = Vec::new();
    let mut iter = s.chars();
    let ghost all = s@;
    broadcast use vstd::string::group_string_axioms;

    let mut i: usize = 0;
    while i < n
        invariant
            i <= n,
            n == all.len(),
            out@ == all.take(i as int),
            vstd::std_specs::iter::IteratorSpec::remaining(&iter) == all.skip(i as int),
            vstd::std_specs::iter::IteratorSpec::obeys_prophetic_iter_laws(&iter),
        decreases n - i,
    {
        match iter.next() {
            Some(c) => {
                out.push(c);
            },
            None => {},
        }
        assert(all.skip(i as int).drop_first() =~= all.skip(i + 1));
        assert(all.take(i as int).push(all[i as int]) =~= all.take(i + 1));
        i += 1;
    }
    assert(all.take(n as int) =~= all);
    out
}

/// The string of the characters `chars[from..to]`.
pub fn string_of(chars: &Vec<char>, from: usize, to: usize) -> (text: String)
    requires
        from <= to <= chars@.len(),
    ensures
        text@ == chars@.subrange(from as int, to as int),
{
    let mut out = String::new();
    let mut i: usize = from;
    while i < to
        invariant
            from <= i <= to <= chars@.len(),
            out@ == chars@.subrange(from as int, i as int),
        decreases to - i,
    {
        out.push(chars[i]);
        assert(chars@.subrange(from as int, i as int).push(chars@[i as int])
            =~= chars@.subrange(from as int, i + 1));
        i += 1;
    }
    out
}

/// The character of a digit below sixteen.
pub open spec fn digit(n: nat) -> char {
    if n == 0 { '0' }
    else if n == 1 { '1' }
    else if n == 2 { '2' }
    else if n == 3 { '3' }
    else if n == 4 { '4' }
    else if n == 5 { '5' }
    else if n == 6 { '6' }
    else if n == 7 { '7' }
    else if n == 8 { '8' }
    else if n == 9 { '9' }
    else if n == 10 { 'a' }
    else if n == 11 { 'b' }
    else if n == 12 { 'c' }
    else if n == 13 { 'd' }
    else if n == 14 { 'e' }
    else { 'f' }
}

/// The character of the digit `n`.
fn digit_char(n: u8) -> (c: char)
    requires
        n < 16,
    ensures
        c == digit(n as nat),
{
    match n {
        0 => '0',
        1 => '1',
        2 => '2',
        3 => '3',
        4 => '4',
        5 => '5',
        6 => '6',
        7 => '7',
        8 => '8',
        9 => '9',
        10 => 'a',
        11 => 'b',
        12 => 'c',
        13 => 'd',
        14 => 'e',
        _ => 'f',
    }
}

/// `n` in decimal.
pub open spec fn decimal(n: nat) -> Seq<char>
    decreases n,
{
    if n < 10 {
        seq![digit(n)]
    } else {
        decimal(n / 10).push(digit(n % 10))
    }
}

/// `n` in decimal, with a leading `-` below zero.
pub open spec fn signed_decimal(n: int) -> Seq<char> {
    if n < 0 {
        seq!['-'] + decimal((-n) as nat)
    } else {
        decimal(n as nat)
    }
}

/// A decimal number is printable.
pub proof fn decimal_printable(n: nat)
    ensures
        printable(decimal(n)),
    decreases n,
{
    broadcast use printable_push;

    if n >= 10 {
        decimal_printable(n / 10);
    }
}

/// A signed decimal number is printable.
pub proof fn signed_decimal_printable(n: int)
    ensures
        printable(signed_decimal(n)),
{
    broadcast use printable_concat;

    if n < 0 {
        decimal_printable((-n) as nat);
    } else {
        decimal_printable(n as nat);
    }
}

/// `n` in decimal.
pub fn decimal_text(n: u64) -> (text: String)
    ensures
        text@ == decimal(n as nat),
    decreases n,
{
    if n < 10 {
        let mut out = String::new();
        out.push(digit_char(n as u8));
        assert(out@ =~= seq![digit(n as nat)]);
        out
    } else {
        let mut out = decimal_text(n / 10);
        out.push(digit_char((n % 10) as u8));
        out
    }
}

/// `n` in decimal, with a leading `-` below zero.
pub fn signed_text(n: i64) -> (text: String)
    ensures
        text@ == signed_decimal(n as int),
{
    if n < 0 {
        let magnitude: u64 = (-(n as i128)) as u64;
        let mut out = String::new();
        out.push('-');
        let digits = decimal_text(magnitude);
        out.append(digits.as_str());
        assert(out@ =~= seq!['-'] + decimal(magnitude as nat));
        out
    } else {
        decimal_text(n as u64)
    }
}

/// Two hexadecimal characters for each byte, the high half first.
pub open spec fn hex(bytes: Seq<u8>) -> Seq<char> {
    Seq::new(
        2 * bytes.len(),
        |i: int|
            if i % 2 == 0 {
                digit((bytes[i / 2] / 16) as nat)
            } else {
                digit((bytes[i / 2] % 16) as nat)
            },
    )
}

/// `bytes` in hexadecimal.
pub fn hex_text(bytes: &[u8]) -> (text: String)
    ensures
        text@ == hex(bytes@),
{
    let mut out = String::new();
    let mut i: usize = 0;
    while i < bytes.len()
        invariant
            i <= bytes@.len(),
            out@ == hex(bytes@.take(i as int)),
        decreases bytes@.len() - i,
    {
        let b: u8 = bytes[i];
        out.push(digit_char(b / 16));
        out.push(digit_char(b % 16));
        assert(out@ =~= hex(bytes@.take(i + 1)));
        i += 1;
    }
    assert(bytes@.take(bytes@.len() as int) =~= bytes@);
    out
}

/// Hexadecimal text is printable.
pub proof fn hex_printable(bytes: Seq<u8>)
    ensures
        printable(hex(bytes)),
{
}

/// `n` in hexadecimal, without leading zeros.
pub open spec fn hex_number(n: nat) -> Seq<char>
    decreases n,
{
    if n < 16 {
        seq![digit(n)]
    } else {
        hex_number(n / 16).push(digit(n % 16))
    }
}

/// `n` in hexadecimal, without leading zeros.
fn hex_number_text(n: u32) -> (text: String)
    ensures
        text@ == hex_number(n as nat),
    decreases n,
{
    if n < 16 {
        let mut out = String::new();
        out.push(digit_char(n as u8));
        assert(out@ =~= seq![digit(n as nat)]);
        out
    } else {
        let mut out = hex_number_text(n / 16);
        out.push(digit_char((n % 16) as u8));
        out
    }
}

/// A hexadecimal number is printable.
pub proof fn hex_number_printable(n: nat)
    ensures
        printable(hex_number(n)),
    decreases n,
{
    broadcast use printable_push;

    if n >= 16 {
        hex_number_printable(n / 16);
    }
}

/// How a control character is written out: `\t`, `\n`, `\r`, or `\u{..}` with
/// its number in hexadecimal.
pub open spec fn escaped_control(c: char) -> Seq<char> {
    if c == '\t' {
        "\\t"@
    } else if c == '\n' {
        "\\n"@
    } else if c == '\r' {
        "\\r"@
    } else {
        "\\u{"@ + hex_number(c as u32 as nat) + "}"@
    }
}

/// `s` with each control character written out.
pub open spec fn escaped(s: Seq<char>) -> Seq<char>
    decreases s.len(),
{
    if s.len() == 0 {
        Seq::empty()
    } else if is_control(s.last()) {
        escaped(s.drop_last()) + escaped_control(s.last())
    } else {
        escaped(s.drop_last()).push(s.last())
    }
}

/// Escaped text never holds a control character, whatever it was made from.
pub proof fn escaped_printable(s: Seq<char>)
    ensures
        printable(escaped(s)),
    decreases s.len(),
{
    broadcast use printable_push, printable_concat;

    if s.len() > 0 {
        escaped_printable(s.drop_last());
        if is_control(s.last()) {
            reveal_strlit("\\t");
            reveal_strlit("\\n");
            reveal_strlit("\\r");
            reveal_strlit("\\u{");
            reveal_strlit("}");
            hex_number_printable(s.last() as u32 as nat);
        }
    }
}

/// Text without control characters is left as it is.
pub proof fn escaped_keeps_printable(s: Seq<char>)
    requires
        printable(s),
    ensures
        escaped(s) == s,
    decreases s.len(),
{
    if s.len() > 0 {
        assert(printable(s.drop_last()));
        escaped_keeps_printable(s.drop_last());
        assert(!is_control(s[s.len() - 1]));
        assert(s.drop_last().push(s.last()) =~= s);
    } else {
        assert(escaped(s) =~= s);
    }
}

/// Escaping twice is escaping once.
pub proof fn escaped_idempotent(s: Seq<char>)
    ensures
        escaped(escaped(s)) == escaped(s),
{
    escaped_printable(s);
    escaped_keeps_printable(escaped(s));
}

/// `s` with every control character escaped, so it stays on one line and
/// cannot drive the terminal.
pub fn escape(s: &str) -> (text: String)
    ensures
        text@ == escaped(s@),
        printable(text@),
{
    let chars = chars_of(s);
    let mut out = String::new();
    let mut i: usize = 0;
    assert(chars@.take(0) =~= Seq::<char>::empty());
    while i < chars.len()
        invariant
            i <= chars@.len(),
            out@ == escaped(chars@.take(i as int)),
        decreases chars@.len() - i,
    {
        let c: char = chars[i];
        assert(chars@.take(i + 1).drop_last() =~= chars@.take(i as int));
        assert(chars@.take(i + 1).last() == c);
        if char_is_control(c) {
            if c == '\t' {
                out.append("\\t");
            } else if c == '\n' {
                out.append("\\n");
            } else if c == '\r' {
                out.append("\\r");
            } else {
                let number = hex_number_text(c as u32);
                let mut code = "\\u{".to_owned();
                code.append(number.as_str());
                code.append("}");
                out.append(code.as_str());
            }
        } else {
            out.push(c);
        }
        i += 1;
    }
    assert(chars@.take(chars@.len() as int) =~= chars@);
    proof {
        escaped_printable(s@);
    }
    out
}

/// The characters that an argument may hold and still be shown bare.
pub open spec fn is_bare(c: char) -> bool {
    ||| alphanumeric(c)
    ||| c == '-'
    ||| c == '_'
    ||| c == '.'
    ||| c == '/'
    ||| c == ':'
    ||| c == '='
    ||| c == ','
    ||| c == '+'
    ||| c == '@'
}

/// Whether an argument is a plain word, shown bare.
pub open spec fn is_plain(arg: Seq<char>) -> bool {
    arg.len() > 0 && (forall|i: int| 0 <= i < arg.len() ==> is_bare(#[trigger] arg[i]))
}

/// An argument as a shell user would read it.
pub open spec fn quoted(arg: Seq<char>) -> Seq<char> {
    if is_plain(arg) {
        arg
    } else {
        debug_text(arg)
    }
}

/// Whether `text` shows `arg`: bare where that is a plain word, which does not
/// open with a quote, and else in quotes, as no other argument would be.
pub open spec fn shows(arg: Seq<char>, text: Seq<char>) -> bool {
    &&& text == quoted(arg)
    &&& is_plain(arg) ==> text.first() != '"'
    &&& !is_plain(arg) ==> in_quotes(text)
    &&& arg.len() == 0 ==> text.len() == 2
    &&& !is_plain(arg) ==> forall|other: Seq<char>| #[trigger]
        debug_text(other) == text ==> other == arg
}

/// Distinct arguments never look alike.
pub proof fn distinct_arguments_look_different(
    arg: Seq<char>,
    other: Seq<char>,
    text: Seq<char>,
    other_text: Seq<char>,
)
    requires
        shows(arg, text),
        shows(other, other_text),
        arg != other,
    ensures
        text != other_text,
{
    if text == other_text && !is_plain(arg) && !is_plain(other) {
        assert(debug_text(other) == text);
    }
}

/// Whether an argument of these characters may stand bare.
fn plain_word(chars: &Vec<char>) -> (plain: bool)
    ensures
        plain == is_plain(chars@),
        plain ==> printable(chars@) && chars@.first() != '"',
{
    let mut i: usize = 0;
    while i < chars.len()
        invariant
            i <= chars@.len(),
            forall|j: int|
                0 <= j < i ==> is_bare(#[trigger] chars@[j]) && !is_control(chars@[j])
                    && chars@[j] != '"',
        decreases chars@.len() - i,
    {
        let c: char = chars[i];
        let word = char_is_alphanumeric(c);
        let sign = c == '-' || c == '_' || c == '.' || c == '/' || c == ':' || c == '=' || c == ','
            || c == '+' || c == '@';
        if !word && !sign {
            assert(!is_bare(chars@[i as int]));
            return false;
        }
        i += 1;
    }
    chars.len() > 0
}

/// An argument as a shell user would read it: bare when it is a plain word,
/// double-quoted with escapes when it is empty or holds white space, quotes,
/// shell metacharacters, or anything that does not print.
pub fn quote_arg(arg: &str) -> (text: String)
    ensures
        shows(arg@, text@),
        printable(text@),
{
    let chars = chars_of(arg);
    if plain_word(&chars) {
        arg.to_owned()
    } else {
        debug_quoted(arg)
    }
}

/// How JSON writes one character of a string.
pub open spec fn json_char(c: char) -> Seq<char> {
    if c == '"' {
        seq!['\\', '"']
    } else if c == '\\' {
        seq!['\\', '\\']
    } else if c as u32 == 0x8 {
        seq!['\\', 'b']
    } else if c as u32 == 0x9 {
        seq!['\\', 't']
    } else if c as u32 == 0xa {
        seq!['\\', 'n']
    } else if c as u32 == 0xc {
        seq!['\\', 'f']
    } else if c as u32 == 0xd {
        seq!['\\', 'r']
    } else if (c as u32) < 0x20 {
        seq!['\\', 'u', '0', '0', digit(c as u32 as nat / 16), digit(c as u32 as nat % 16)]
    } else {
        seq![c]
    }
}

/// The characters of a string as JSON writes them.
pub open spec fn json_chars(s: Seq<char>) -> Seq<char>
    decreases s.len(),
{
    if s.len() == 0 {
        Seq::empty()
    } else {
        json_chars(s.drop_last()) + json_char(s.last())
    }
}

/// A string as a JSON string.
pub open spec fn json_quoted(s: Seq<char>) -> Seq<char> {
    seq!['"'] + json_chars(s) + seq!['"']
}

/// `serde_json::Value::from` and its `to_string`: the compact JSON of a string,
/// in double quotes, with quotes, backslashes and the characters below U+0020
/// escaped and everything else as it is.
#[verifier::external_body]
pub(crate) fn json_string(s: &str) -> (text: String)
    ensures
        text@ == json_quoted(s@),
{
    serde_json::Value::from(s).to_string()
}

/// No character of `s` is below U+0020, so it cannot end a line.
pub open spec fn one_line(s: Seq<char>) -> bool {
    forall|i: int| 0 <= i < s.len() ==> #[trigger] s[i] as u32 >= 0x20
}

/// Text joined from one-line pieces is one line.
pub broadcast proof fn one_line_concat(a: Seq<char>, b: Seq<char>)
    requires
        one_line(a),
        one_line(b),
    ensures
        #[trigger] one_line(a + b),
{
    assert forall|i: int| 0 <= i < (a + b).len() implies #[trigger] (a + b)[i] as u32 >= 0x20 by {
        if i < a.len() {
            assert((a + b)[i] == a[i]);
        } else {
            assert((a + b)[i] == b[i - a.len()]);
        }
    }
}

/// Printable text is one line.
pub proof fn printable_is_one_line(s: Seq<char>)
    requires
        printable(s),
    ensures
        one_line(s),
{
    assert forall|i: int| 0 <= i < s.len() implies #[trigger] s[i] as u32 >= 0x20 by {
        assert(!is_control(s[i]));
    }
}

/// A JSON string is one line, whatever it holds.
pub proof fn json_quoted_one_line(s: Seq<char>)
    ensures
        one_line(json_quoted(s)),
{
    broadcast use one_line_concat;

    json_chars_one_line(s);
}

/// The characters of a JSON string stay on one line.
proof fn json_chars_one_line(s: Seq<char>)
    ensures
        one_line(json_chars(s)),
    decreases s.len(),
{
    broadcast use one_line_concat;

    if s.len() > 0 {
        json_chars_one_line(s.drop_last());
    }
}

/// The texts of a list of strings.
pub open spec fn texts(list: Seq<String>) -> Seq<Seq<char>> {
    list.map_values(|s: String| s@)
}

/// Appending a string appends its text.
pub broadcast proof fn texts_push(list: Seq<String>, s: String)
    ensures
        #[trigger] texts(list.push(s)) == texts(list).push(s@),
{
    assert(texts(list.push(s)) =~= texts(list).push(s@));
}

/// The text of an optional string.
pub open spec fn maybe_text(s: Option<String>) -> Option<Seq<char>> {
    match s {
        Some(s) => Some(s@),
        None => None,
    }
}

/// Whether two texts are the same.
pub fn same_text(a: &str, b: &str) -> (same: bool)
    ensures
        same == (a@ == b@),
{
    let x = a.to_owned();
    let y = b.to_owned();
    x == y
}

/// Whether two optional texts are the same.
pub fn same_maybe(a: &Option<String>, b: &Option<String>) -> (same: bool)
    ensures
        same == (maybe_text(*a) == maybe_text(*b)),
{
    match (a, b) {
        (Some(a), Some(b)) => *a == *b,
        (None, None) => true,
        _ => false,
    }
}

/// A copy of an optional text.
pub fn copy_maybe(a: &Option<String>) -> (copy: Option<String>)
    ensures
        maybe_text(copy) == maybe_text(*a),
{
    match a {
        Some(a) => Some(a.clone()),
        None => None,
    }
}

/// Whether two lists hold the same texts in the same order.
pub fn same_texts(a: &Vec<String>, b: &Vec<String>) -> (same: bool)
    ensures
        same == (texts(a@) == texts(b@)),
{
    if a.len() != b.len() {
        assert(texts(a@).len() != texts(b@).len());
        return false;
    }
    let mut i: usize = 0;
    while i < a.len()
        invariant
            i <= a@.len(),
            a@.len() == b@.len(),
            forall|j: int| 0 <= j < i ==> texts(a@)[j] == texts(b@)[j],
        decreases a@.len() - i,
    {
        if a[i] != b[i] {
            assert(texts(a@)[i as int] != texts(b@)[i as int]);
            return false;
        }
        i += 1;
    }
    assert(texts(a@) =~= texts(b@));
    true
}

/// A copy of a list of strings.
pub fn copy_texts(list: &Vec<String>) -> (copy: Vec<String>)
    ensures
        texts(copy@) == texts(list@),
{
    let mut out: Vec<String> = Vec::new();
    let mut i: usize = 0;
    while i < list.len()
        invariant
            i <= list@.len(),
            texts(out@) == texts(list@).take(i as int),
        decreases list@.len() - i,
    {
        let ghost before = out@;
        let next = list[i].clone();
        out.push(next);
        proof {
            texts_push(before, next);
        }
        assert(texts(list@).take(i + 1) =~= texts(list@).take(i as int).push(list@[i as int]@));
        i += 1;
    }
    assert(texts(list@).take(list@.len() as int) =~= texts(list@));
    out
}

/// The parts with `sep` between each two of them.
pub open spec fn joined(parts: Seq<Seq<char>>, sep: Seq<char>) -> Seq<char>
    decreases parts.len(),
{
    if parts.len() == 0 {
        Seq::empty()
    } else if parts.len() == 1 {
        parts[0]
    } else {
        joined(parts.drop_last(), sep) + sep + parts.last()
    }
}

/// Joining printable parts with a printable separator gives printable text.
pub proof fn joined_printable(parts: Seq<Seq<char>>, sep: Seq<char>)
    requires
        printable(sep),
        forall|i: int| 0 <= i < parts.len() ==> printable(#[trigger] parts[i]),
    ensures
        printable(joined(parts, sep)),
    decreases parts.len(),
{
    broadcast use printable_concat;

    if parts.len() > 1 {
        assert forall|i: int| 0 <= i < parts.drop_last().len() implies printable(
            #[trigger] parts.drop_last()[i],
        ) by {
            assert(parts.drop_last()[i] == parts[i]);
        }
        joined_printable(parts.drop_last(), sep);
        assert(printable(parts[parts.len() - 1]));
    } else if parts.len() == 1 {
        assert(printable(parts[0]));
    }
}

/// The strings of `list` with `sep` between each two of them.
pub fn join(list: &Vec<String>, sep: &str) -> (text: String)
    ensures
        text@ == joined(texts(list@), sep@),
{
    let mut out = String::new();
    let mut i: usize = 0;
    while i < list.len()
        invariant
            i <= list@.len(),
            out@ == joined(texts(list@).take(i as int), sep@),
        decreases list@.len() - i,
    {
        let ghost next = texts(list@).take(i + 1);
        assert(next.drop_last() =~= texts(list@).take(i as int));
        assert(next.last() == list@[i as int]@);
        if i > 0 {
            out.append(sep);
            out.append(list[i].as_str());
        } else {
            out = list[i].clone();
        }
        i += 1;
    }
    assert(texts(list@).take(list@.len() as int) =~= texts(list@));
    out
}

/// What a digit counts for: `0` to `9` by their place among the decimal digits, and
/// letters from `a` on as ten and up.
pub open spec fn digit_value(c: char) -> int {
    if c as int <= 57 {
        c as int - 48
    } else {
        c as int - 87
    }
}

/// The number that a row of digits is read as, in a base.
pub open spec fn number_read(s: Seq<char>, base: int) -> int
    decreases s.len(),
{
    if s.len() == 0 {
        0
    } else {
        base * number_read(s.drop_last(), base) + digit_value(s.last())
    }
}

/// The number that decimal digits are read as, after an optional minus sign.
pub open spec fn signed_read(s: Seq<char>) -> int {
    if s.len() > 0 && s[0] == '-' {
        -number_read(s.skip(1), 10)
    } else {
        number_read(s, 10)
    }
}

/// Every digit stands for its number, and is a decimal digit or a small letter up to `f`.
pub proof fn a_digit_stands_for_its_number(n: nat)
    requires
        n < 16,
    ensures
        digit_value(digit(n)) == n,
        n < 10 ==> 48 <= digit(n) as int <= 57,
        n >= 10 ==> 97 <= digit(n) as int <= 102,
{
}

/// A number in decimal is digits only, without a needless zero in front, and reads
/// back as the number.
pub proof fn a_decimal_reads_back(n: nat)
    ensures
        decimal(n).len() > 0,
        forall|i: int| 0 <= i < decimal(n).len() ==> 48 <= (#[trigger] decimal(n)[i]) as int <= 57,
        decimal(n).len() > 1 ==> decimal(n)[0] != '0',
        number_read(decimal(n), 10) == n,
    decreases n,
{
    if n < 10 {
        a_digit_stands_for_its_number(n);
        assert(decimal(n).drop_last() =~= Seq::<char>::empty());
        assert(number_read(decimal(n).drop_last(), 10) == 0);
    } else {
        a_decimal_reads_back(n / 10);
        a_digit_stands_for_its_number(n % 10);
        assert(decimal(n).drop_last() =~= decimal(n / 10));
        if decimal(n / 10).len() == 1 {
            assert(decimal(n / 10).drop_last() =~= Seq::<char>::empty());
            assert(number_read(decimal(n / 10).drop_last(), 10) == 0);
        }
    }
}

/// A number in decimal has a minus sign exactly where it is negative, digits and
/// nothing else behind it, and reads back as the number.
pub proof fn a_signed_decimal_reads_back(n: int)
    ensures
        signed_read(signed_decimal(n)) == n,
        signed_decimal(n).len() > 0,
        (signed_decimal(n)[0] == '-') == (n < 0),
        forall|i: int|
            0 <= i < signed_decimal(n).len() && !(i == 0 && n < 0) ==> 48 <= (
            #[trigger] signed_decimal(n)[i]) as int <= 57,
{
    if n < 0 {
        a_decimal_reads_back((-n) as nat);
        assert(signed_decimal(n).skip(1) =~= decimal((-n) as nat));
    } else {
        a_decimal_reads_back(n as nat);
    }
}

/// Two numbers are written alike only if they are one.
pub proof fn numbers_are_written_apart(a: int, b: int)
    requires
        signed_decimal(a) == signed_decimal(b),
    ensures
        a == b,
{
    a_signed_decimal_reads_back(a);
    a_signed_decimal_reads_back(b);
}

/// Bytes in hex are two small hex digits for each, the higher half first, and read
/// back as the bytes.
pub proof fn hex_reads_back(bytes: Seq<u8>, i: int)
    ensures
        hex(bytes).len() == 2 * bytes.len(),
        0 <= i < bytes.len() ==> 16 * digit_value(hex(bytes)[2 * i]) + digit_value(
            hex(bytes)[2 * i + 1],
        ) == bytes[i],
        forall|i: int|
            0 <= i < hex(bytes).len() ==> (48 <= (#[trigger] hex(bytes)[i]) as int <= 57 || 97
                <= hex(bytes)[i] as int <= 102),
{
}

/// Two rows of bytes are written alike only if they are one.
pub proof fn bytes_are_written_apart(a: Seq<u8>, b: Seq<u8>)
    requires
        hex(a) == hex(b),
    ensures
        a == b,
{
    assert(hex(a).len() == 2 * a.len() && hex(b).len() == 2 * b.len());
    assert forall|i: int| 0 <= i < a.len() implies a[i] == b[i] by {
        hex_reads_back(a, i);
        hex_reads_back(b, i);
        assert(hex(a)[2 * i] == hex(b)[2 * i]);
        assert(hex(a)[2 * i + 1] == hex(b)[2 * i + 1]);
    }
    assert(a =~= b);
}

/// A number in hex is small hex digits only and reads back as the number.
pub proof fn a_hex_number_reads_back(n: nat)
    ensures
        hex_number(n).len() > 0,
        number_read(hex_number(n), 16) == n,
        forall|i: int|
            0 <= i < hex_number(n).len() ==> (48 <= (#[trigger] hex_number(n)[i]) as int <= 57
                || 97 <= hex_number(n)[i] as int <= 102),
    decreases n,
{
    if n < 16 {
        a_digit_stands_for_its_number(n);
        assert(hex_number(n).drop_last() =~= Seq::<char>::empty());
        assert(number_read(hex_number(n).drop_last(), 16) == 0);
    } else {
        a_hex_number_reads_back(n / 16);
        a_digit_stands_for_its_number(n % 16);
        assert(hex_number(n).drop_last() =~= hex_number(n / 16));
    }
}

/// Escaping goes by the character: what is escaped in two parts is what is escaped
/// in one.
pub proof fn escaping_goes_by_the_character(a: Seq<char>, b: Seq<char>)
    ensures
        escaped(a + b) == escaped(a) + escaped(b),
    decreases b.len(),
{
    if b.len() == 0 {
        assert(a + b =~= a);
        assert(escaped(a) + escaped(b) =~= escaped(a));
    } else {
        escaping_goes_by_the_character(a, b.drop_last());
        assert((a + b).drop_last() =~= a + b.drop_last());
        assert((a + b).last() == b.last());
        assert(escaped(a + b) =~= escaped(a) + escaped(b));
    }
}

/// A character that a terminal only shows is kept; a control character becomes a
/// backslash and a letter for a tab, a line feed and a carriage return, and else a
/// backslash, a `u` and its number in hex, in braces.
pub proof fn a_control_character_is_spelled_out(c: char)
    ensures
        ({
            let n = c as u32;
            let text = escaped(seq![c]);
            let control = n < 32 || 127 <= n < 160;
            &&& !control ==> text == seq![c]
            &&& n == 9 ==> text == seq!['\\', 't']
            &&& n == 10 ==> text == seq!['\\', 'n']
            &&& n == 13 ==> text == seq!['\\', 'r']
            &&& control && n != 9 && n != 10 && n != 13 ==> {
                &&& text.len() > 4
                &&& text.take(3) == seq!['\\', 'u', '{']
                &&& text.last() == '}'
                &&& number_read(text.subrange(3, text.len() - 1), 16) == n
            }
        }),
{
    reveal_strlit("\\t");
    reveal_strlit("\\n");
    reveal_strlit("\\r");
    reveal_strlit("\\u{");
    reveal_strlit("}");
    let n = c as u32 as nat;
    let text = escaped(seq![c]);
    assert(seq![c].drop_last() =~= Seq::<char>::empty());
    assert(escaped(seq![c].drop_last()) =~= Seq::<char>::empty());
    a_hex_number_reads_back(n);
    if !is_control(c) {
        assert(text =~= seq![c]);
    } else if n == 9 {
        assert(text =~= seq!['\\', 't']);
    } else if n == 10 {
        assert(text =~= seq!['\\', 'n']);
    } else if n == 13 {
        assert(text =~= seq!['\\', 'r']);
    } else {
        assert(text =~= "\\u{"@ + hex_number(n) + "}"@);
        assert(text.take(3) =~= seq!['\\', 'u', '{']);
        assert(text.subrange(3, text.len() - 1) =~= hex_number(n));
    }
}

/// Among the characters of ASCII, the space and the five from the tab to the carriage
/// return are whitespace.
pub proof fn whitespace_of_ascii(c: char)
    requires
        (c as u32) < 128,
    ensures
        is_whitespace(c) == (c == ' ' || 9 <= c as u32 <= 13),
{
}

/// Writing JSON goes by the character: what is written in two parts is what is
/// written in one.
pub proof fn json_goes_by_the_character(a: Seq<char>, b: Seq<char>)
    ensures
        json_chars(a + b) == json_chars(a) + json_chars(b),
    decreases b.len(),
{
    if b.len() == 0 {
        assert(a + b =~= a);
        assert(json_chars(a) + json_chars(b) =~= json_chars(a));
    } else {
        json_goes_by_the_character(a, b.drop_last());
        assert((a + b).drop_last() =~= a + b.drop_last());
        assert((a + b).last() == b.last());
        assert(json_chars(a + b) =~= json_chars(a) + json_chars(b));
    }
}

/// In JSON a character stands for itself, but for quotes, backslashes and the first
/// thirty-two: those are a backslash with the quote, the backslash, the letter that
/// names them, or a `u` and four hex digits that read back as their number.
pub proof fn a_json_character_reads_back(c: char)
    ensures
        ({
            let n = c as u32;
            let text = json_chars(seq![c]);
            &&& n >= 32 && c != '"' && c != '\\' ==> text == seq![c]
            &&& n < 32 || c == '"' || c == '\\' ==> text.len() >= 2 && text[0] == '\\'
            &&& c == '"' || c == '\\' ==> text == seq!['\\', c]
            &&& n == 8 ==> text == seq!['\\', 'b']
            &&& n == 9 ==> text == seq!['\\', 't']
            &&& n == 10 ==> text == seq!['\\', 'n']
            &&& n == 12 ==> text == seq!['\\', 'f']
            &&& n == 13 ==> text == seq!['\\', 'r']
            &&& n < 8 || n == 11 || 14 <= n < 32 ==> text.len() == 6 && text[1] == 'u'
                && number_read(text.skip(2), 16) == n
        }),
{
    let n = c as u32 as nat;
    let text = json_chars(seq![c]);
    assert(seq![c].drop_last() =~= Seq::<char>::empty());
    assert(json_chars(seq![c].drop_last()) =~= Seq::<char>::empty());
    assert(text =~= json_char(c));
    if n < 8 || n == 11 || 14 <= n < 32 {
        let digits = text.skip(2);
        assert(digits =~= seq!['0', '0', digit(n / 16), digit(n % 16)]);
        reveal_with_fuel(number_read, 5);
        a_digit_stands_for_its_number(n / 16);
        a_digit_stands_for_its_number(n % 16);
        assert(digits.drop_last() =~= seq!['0', '0', digit(n / 16)]);
        assert(digits.drop_last().drop_last() =~= seq!['0', '0']);
        assert(digits.drop_last().drop_last().drop_last() =~= seq!['0']);
        assert(digits.drop_last().drop_last().drop_last().drop_last() =~= Seq::<char>::empty());
    }
}

/// No character's JSON begins another's.
proof fn json_characters_part(a: char, b: char)
    requires
        a != b,
    ensures
        json_char(a).len() > 0,
        exists|i: int|
            0 <= i < json_char(a).len() && i < json_char(b).len() && #[trigger] json_char(a)[i]
                != json_char(b)[i],
{
    let x = json_char(a);
    let y = json_char(b);
    if x[0] != y[0] {
    } else if x[1] != y[1] {
    } else {
        let n = a as u32 as nat;
        let m = b as u32 as nat;
        assert(x[1] == 'u');
        assert(n < 32 && m < 32);
        a_digit_stands_for_its_number(n / 16);
        a_digit_stands_for_its_number(n % 16);
        a_digit_stands_for_its_number(m / 16);
        a_digit_stands_for_its_number(m % 16);
        assert(x[4] != y[4] || x[5] != y[5]);
    }
}

/// Two texts are written alike in JSON only if they are one.
pub proof fn json_texts_are_written_apart(a: Seq<char>, b: Seq<char>)
    requires
        json_quoted(a) == json_quoted(b),
    ensures
        a == b,
{
    let x = json_quoted(a);
    assert(x.subrange(1, x.len() - 1) =~= json_chars(a));
    assert(x.subrange(1, x.len() - 1) =~= json_chars(b));
    json_chars_apart(a, b);
}

proof fn json_chars_apart(a: Seq<char>, b: Seq<char>)
    requires
        json_chars(a) == json_chars(b),
    ensures
        a == b,
    decreases a.len(),
{
    if a.len() > 0 {
        assert(json_chars(a).len() >= json_char(a.last()).len() > 0);
    }
    if b.len() > 0 {
        assert(json_chars(b).len() >= json_char(b.last()).len() > 0);
    }
    if a.len() > 0 && b.len() > 0 {
        let (c, d) = (a[0], b[0]);
        assert(seq![c] + a.skip(1) =~= a);
        assert(seq![d] + b.skip(1) =~= b);
        json_goes_by_the_character(seq![c], a.skip(1));
        json_goes_by_the_character(seq![d], b.skip(1));
        assert(seq![c].drop_last() =~= Seq::<char>::empty());
        assert(seq![d].drop_last() =~= Seq::<char>::empty());
        assert(json_chars(seq![c].drop_last()) =~= Seq::<char>::empty());
        assert(json_chars(seq![d].drop_last()) =~= Seq::<char>::empty());
        assert(json_chars(seq![c]) =~= json_char(c));
        assert(json_chars(seq![d]) =~= json_char(d));
        if c != d {
            json_characters_part(c, d);
            let i = choose|i: int|
                0 <= i < json_char(c).len() && i < json_char(d).len() && #[trigger] json_char(c)[i]
                    != json_char(d)[i];
            assert(json_chars(a)[i] == json_char(c)[i]);
            assert(json_chars(b)[i] == json_char(d)[i]);
        } else {
            let n = json_char(c).len() as int;
            assert(json_chars(a).skip(n) =~= json_chars(a.skip(1)));
            assert(json_chars(b).skip(n) =~= json_chars(b.skip(1)));
            json_chars_apart(a.skip(1), b.skip(1));
        }
    } else {
        assert(a =~= b);
    }
}

/// Joining: nothing is nothing, one part is itself, and two rows are joined by
/// joining each and putting the separator once between.
pub proof fn joining_puts_the_separator_between(
    a: Seq<Seq<char>>,
    b: Seq<Seq<char>>,
    part: Seq<char>,
    sep: Seq<char>,
)
    ensures
        joined(Seq::empty(), sep) == Seq::<char>::empty(),
        joined(seq![part], sep) == part,
        a.len() > 0 && b.len() > 0 ==> joined(a + b, sep) == joined(a, sep) + sep + joined(b, sep),
    decreases b.len(),
{
    if a.len() > 0 && b.len() > 0 {
        assert((a + b).drop_last() =~= a + b.drop_last());
        assert((a + b).last() == b.last());
        if b.len() == 1 {
            assert(a + b.drop_last() =~= a);
        } else {
            joining_puts_the_separator_between(a, b.drop_last(), part, sep);
            assert(joined(a + b, sep) =~= joined(a, sep) + sep + joined(b, sep));
        }
    }
}

/// An argument is plain where it has a character and every one is a letter or a
/// number or one of nine signs; no other sign is plain.
pub proof fn nine_signs_are_plain(arg: Seq<char>)
    ensures
        is_plain(arg) <==> arg.len() > 0 && forall|i: int|
            0 <= i < arg.len() ==> alphanumeric(#[trigger] arg[i]) || seq![
                '-',
                '_',
                '.',
                '/',
                ':',
                '=',
                ',',
                '+',
                '@',
            ].contains(arg[i]),
{
    let signs = seq!['-', '_', '.', '/', ':', '=', ',', '+', '@'];
    assert forall|c: char| #[trigger] signs.contains(c) == (is_bare(c) && (c == '-' || c == '_' || c
        == '.' || c == '/' || c == ':' || c == '=' || c == ',' || c == '+' || c == '@')) by {
        assert(signs[0] == '-' && signs[1] == '_' && signs[2] == '.' && signs[3] == '/' && signs[4]
            == ':' && signs[5] == '=' && signs[6] == ',' && signs[7] == '+' && signs[8] == '@');
    }
    if is_plain(arg) {
        assert forall|i: int| 0 <= i < arg.len() implies alphanumeric(#[trigger] arg[i])
            || signs.contains(arg[i]) by {
            assert(is_bare(arg[i]));
        }
    }
    if arg.len() > 0 && forall|i: int|
        0 <= i < arg.len() ==> alphanumeric(#[trigger] arg[i]) || signs.contains(arg[i]) {
        assert forall|i: int| 0 <= i < arg.len() implies is_bare(#[trigger] arg[i]) by {
            assert(alphanumeric(arg[i]) || signs.contains(arg[i]));
        }
    }
}

/// Beyond ASCII nineteen numbers and no others are whitespace: the next line, the
/// space that does not break, and the spaces of the general and the wide scripts.
pub proof fn whitespace_beyond_ascii(c: char)
    requires
        c as u32 >= 128,
    ensures
        ({
            let n = c as u32;
            is_whitespace(c) <==> n == 133 || n == 160 || n == 5760 || 8192 <= n < 8203 || n == 8232
                || n == 8233 || n == 8239 || n == 8287 || n == 12288
        }),
{
}

} // verus!

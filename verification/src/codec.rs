//! The persistence codec: the full state of an [`Animation`] as a
//! self-describing text, and the exact reconstruction of that state.
//!
//! The persisted form is one JSON object, written without extra whitespace:
//!
//! ```text
//! {"frames":[{"content":["line","line"]},...],"current_frame":N,"speed":N}
//! ```
//!
//! Inside string values the characters `"` and `\` are escaped with a
//! backslash and control characters as `\u00XX`; the reader also accepts
//! the short escapes `\n`, `\t`, `\r`, `\b`, `\f` and `\/`, and `\u00XX`
//! for any character below `U+0100`.  The reader expects the three fields
//! in the order written above.  A text that breaks the lexical form (bad
//! punctuation, an unterminated or ill-escaped string, trailing text) is
//! *malformed*; one whose lexical form is fine but where a field name is
//! not the expected one, a required field is absent (the object closes
//! where a field should stand), or a value is not of the required shape (a
//! frame that is not an object, a count that is not an unsigned number in
//! range) is a *schema mismatch*.
//!
//! The whole codec is written here and proved: [`lemma_round_trip`] shows
//! that decoding an encoded store gives back exactly the encoded state.

use vstd::prelude::*;

use crate::animation::AnimError;
use crate::animation::AnimModel;
use crate::animation::Animation;
use crate::animation::Frame;
use crate::animation::frames_view;

verus! {

// ---------------------------------------------------------------------
// Trusted conversions between text and character sequences
// ---------------------------------------------------------------------
/// Relies on `str::chars`: it yields exactly the string's characters in
/// order (the very sequence that is the string's view).
#[verifier::external_body]
pub(crate) fn str_chars(s: &str) -> (r: Vec<char>)
    ensures
        r@ == s@,
{
    s.chars().collect()
}

/// Relies on `String`'s `FromIterator<char>`: collecting characters gives
/// the string of exactly those characters in order.
#[verifier::external_body]
fn chars_string(v: &Vec<char>) -> (r: String)
    ensures
        r@ == v@,
{
    v.iter().collect()
}

// ---------------------------------------------------------------------
// The encoding, as a specification
// ---------------------------------------------------------------------
/// The decimal digit `d` (meaningful for `d < 10`).
pub open spec fn digit_char(d: nat) -> char {
    if d == 0 {
        '0'
    } else if d == 1 {
        '1'
    } else if d == 2 {
        '2'
    } else if d == 3 {
        '3'
    } else if d == 4 {
        '4'
    } else if d == 5 {
        '5'
    } else if d == 6 {
        '6'
    } else if d == 7 {
        '7'
    } else if d == 8 {
        '8'
    } else {
        '9'
    }
}

/// The lower-case hexadecimal digit `d` (meaningful for `d < 16`).
pub open spec fn hex_digit(d: nat) -> char {
    if d < 10 {
        digit_char(d)
    } else if d == 10 {
        'a'
    } else if d == 11 {
        'b'
    } else if d == 12 {
        'c'
    } else if d == 13 {
        'd'
    } else if d == 14 {
        'e'
    } else {
        'f'
    }
}

/// How one character is written inside a string value.
pub open spec fn esc_char(c: char) -> Seq<char> {
    if c == '"' {
        seq!['\\', '"']
    } else if c == '\\' {
        seq!['\\', '\\']
    } else if (c as u32) < 32 {
        seq![
            '\\',
            'u',
            '0',
            '0',
            hex_digit(((c as u32) / 16) as nat),
            hex_digit(((c as u32) % 16) as nat),
        ]
    } else {
        seq![c]
    }
}

/// A whole string content, escaped character by character.
pub open spec fn esc_str(s: Seq<char>) -> Seq<char>
    decreases s.len(),
{
    if s.len() == 0 {
        Seq::empty()
    } else {
        esc_char(s[0]) + esc_str(s.skip(1))
    }
}

/// A string value: the escaped content between two quotes.
pub open spec fn enc_string(s: Seq<char>) -> Seq<char> {
    seq!['"'] + esc_str(s) + seq!['"']
}

/// An unsigned number in decimal, without a leading zero (except `0`).
pub open spec fn enc_nat(n: nat) -> Seq<char>
    decreases n,
{
    if n < 10 {
        seq![digit_char(n)]
    } else {
        enc_nat(n / 10) + seq![digit_char(n % 10)]
    }
}

/// List elements separated by commas (without the surrounding brackets).
pub open spec fn enc_list<T>(xs: Seq<T>, f: spec_fn(T) -> Seq<char>) -> Seq<char>
    decreases xs.len(),
{
    if xs.len() == 0 {
        Seq::empty()
    } else if xs.len() == 1 {
        f(xs[0])
    } else {
        f(xs[0]) + seq![','] + enc_list(xs.skip(1), f)
    }
}

/// The name of the field that holds the frames.
pub open spec fn frames_key() -> Seq<char> {
    seq!['f', 'r', 'a', 'm', 'e', 's']
}

/// The name of the field that holds a frame's lines.
pub open spec fn content_key() -> Seq<char> {
    seq!['c', 'o', 'n', 't', 'e', 'n', 't']
}

/// The name of the field that holds the cursor.
pub open spec fn current_key() -> Seq<char> {
    seq!['c', 'u', 'r', 'r', 'e', 'n', 't', '_', 'f', 'r', 'a', 'm', 'e']
}

/// The name of the field that holds the speed.
pub open spec fn speed_key() -> Seq<char> {
    seq!['s', 'p', 'e', 'e', 'd']
}

/// The lines of one frame, as a list of string values.
pub open spec fn enc_lines(ls: Seq<Seq<char>>) -> Seq<char> {
    enc_list(ls, |l: Seq<char>| enc_string(l))
}

/// One frame: an object with its `content` field.
pub open spec fn enc_frame(f: Seq<Seq<char>>) -> Seq<char> {
    seq!['{'] + enc_string(content_key()) + seq![':', '['] + enc_lines(f) + seq![']', '}']
}

/// The frame list, as a list of frame objects.
pub open spec fn enc_frames(fs: Seq<Seq<Seq<char>>>) -> Seq<char> {
    enc_list(fs, |f: Seq<Seq<char>>| enc_frame(f))
}

/// The persisted text of a whole store.
pub open spec fn enc_anim(m: AnimModel) -> Seq<char> {
    seq!['{'] + enc_string(frames_key()) + seq![':', '['] + enc_frames(m.frames) + seq![']', ',']
        + enc_string(current_key()) + seq![':'] + enc_nat(m.cursor) + seq![','] + enc_string(
        speed_key(),
    ) + seq![':'] + enc_nat(m.speed) + seq!['}']
}

// ---------------------------------------------------------------------
// Facts about the encoding
// ---------------------------------------------------------------------
/// Escaping distributes over concatenation.
pub proof fn lemma_esc_str_append(a: Seq<char>, b: Seq<char>)
    ensures
        esc_str(a + b) == esc_str(a) + esc_str(b),
    decreases a.len(),
{
    if a.len() == 0 {
        assert(a + b =~= b);
        assert(esc_str(a) + esc_str(b) =~= esc_str(b));
    } else {
        assert((a + b).skip(1) =~= a.skip(1) + b);
        lemma_esc_str_append(a.skip(1), b);
        assert((a + b)[0] == a[0]);
        assert(esc_char(a[0]) + (esc_str(a.skip(1)) + esc_str(b)) =~= (esc_char(a[0]) + esc_str(
            a.skip(1),
        )) + esc_str(b));
    }
}

/// A comma-separated list splits at any inner boundary.
pub proof fn lemma_enc_list_append<T>(xs: Seq<T>, ys: Seq<T>, f: spec_fn(T) -> Seq<char>)
    requires
        xs.len() > 0,
        ys.len() > 0,
    ensures
        enc_list(xs + ys, f) == enc_list(xs, f) + seq![','] + enc_list(ys, f),
    decreases xs.len(),
{
    if xs.len() == 1 {
        assert((xs + ys)[0] == xs[0]);
        assert((xs + ys).skip(1) =~= ys);
        assert(enc_list(xs + ys, f) == f(xs[0]) + seq![','] + enc_list(ys, f));
        assert(enc_list(xs, f) == f(xs[0]));
    } else {
        assert((xs + ys)[0] == xs[0]);
        assert((xs + ys).skip(1) =~= xs.skip(1) + ys);
        lemma_enc_list_append(xs.skip(1), ys, f);
        assert(f(xs[0]) + seq![','] + (enc_list(xs.skip(1), f) + seq![','] + enc_list(ys, f)) =~= (
        f(xs[0]) + seq![','] + enc_list(xs.skip(1), f)) + seq![','] + enc_list(ys, f));
    }
}

/// Extending a list by one element extends its text by a separator (after
/// the first element) and the element's text.
pub proof fn lemma_enc_list_snoc<T>(xs: Seq<T>, i: int, f: spec_fn(T) -> Seq<char>)
    requires
        0 <= i < xs.len(),
    ensures
        enc_list(xs.take(i + 1), f) == enc_list(xs.take(i), f) + (if i == 0 {
            Seq::<char>::empty()
        } else {
            seq![',']
        }) + f(xs[i]),
{
    let one = seq![xs[i]];
    assert(xs.take(i + 1) =~= xs.take(i) + one);
    assert(enc_list(one, f) == f(xs[i]));
    if i == 0 {
        assert(xs.take(0) =~= Seq::<T>::empty());
        assert(xs.take(1) =~= one);
        assert(enc_list(xs.take(i), f) + Seq::<char>::empty() + f(xs[i]) =~= f(xs[i]));
    } else {
        lemma_enc_list_append(xs.take(i), one, f);
    }
}

// ---------------------------------------------------------------------
// The verified encoder
// ---------------------------------------------------------------------
fn digit_char_x(d: u64) -> (c: char)
    requires
        d < 10,
    ensures
        c == digit_char(d as nat),
{
    if d == 0 {
        '0'
    } else if d == 1 {
        '1'
    } else if d == 2 {
        '2'
    } else if d == 3 {
        '3'
    } else if d == 4 {
        '4'
    } else if d == 5 {
        '5'
    } else if d == 6 {
        '6'
    } else if d == 7 {
        '7'
    } else if d == 8 {
        '8'
    } else {
        '9'
    }
}

fn hex_digit_x(d: u32) -> (c: char)
    requires
        d < 16,
    ensures
        c == hex_digit(d as nat),
{
    if d < 10 {
        digit_char_x(d as u64)
    } else if d == 10 {
        'a'
    } else if d == 11 {
        'b'
    } else if d == 12 {
        'c'
    } else if d == 13 {
        'd'
    } else if d == 14 {
        'e'
    } else {
        'f'
    }
}

fn emit_escaped(out: &mut Vec<char>, cs: &Vec<char>)
    ensures
        final(out)@ == old(out)@ + esc_str(cs@),
{
    let mut i: usize = 0;
    proof {
        assert(out@ =~= old(out)@ + esc_str(cs@.take(0)));
    }
    while i < cs.len()
        invariant
            i <= cs.len(),
            out@ == old(out)@ + esc_str(cs@.take(i as int)),
        decreases cs.len() - i,
    {
        let c = cs[i];
        let ghost pre = out@;
        if c == '"' {
            out.push('\\');
            out.push('"');
            proof {
                assert(out@ =~= pre + esc_char(c));
            }
        } else if c == '\\' {
            out.push('\\');
            out.push('\\');
            proof {
                assert(out@ =~= pre + esc_char(c));
            }
        } else if (c as u32) < 32 {
            let u = c as u32;
            out.push('\\');
            out.push('u');
            out.push('0');
            out.push('0');
            out.push(hex_digit_x(u / 16));
            out.push(hex_digit_x(u % 16));
            proof {
                assert(out@ =~= pre + esc_char(c));
            }
        } else {
            out.push(c);
            proof {
                assert(out@ =~= pre + esc_char(c));
            }
        }
        proof {
            lemma_esc_str_append(cs@.take(i as int), seq![cs@[i as int]]);
            assert(cs@.take(i + 1) =~= cs@.take(i as int) + seq![cs@[i as int]]);
            let one = seq![cs@[i as int]];
            assert(one.skip(1) =~= Seq::<char>::empty());
            assert(esc_str(one) == esc_char(one[0]) + esc_str(one.skip(1)));
            assert(esc_str(one) =~= esc_char(cs@[i as int]));
            assert(out@ =~= old(out)@ + esc_str(cs@.take(i + 1)));
        }
        i = i + 1;
    }
    proof {
        assert(cs@.take(cs@.len() as int) =~= cs@);
    }
}

fn emit_string_chars(out: &mut Vec<char>, cs: &Vec<char>)
    ensures
        final(out)@ == old(out)@ + enc_string(cs@),
{
    out.push('"');
    emit_escaped(out, cs);
    out.push('"');
    proof {
        assert(out@ =~= old(out)@ + enc_string(cs@));
    }
}

fn emit_nat(out: &mut Vec<char>, n: u64)
    ensures
        final(out)@ == old(out)@ + enc_nat(n as nat),
    decreases n,
{
    if n < 10 {
        out.push(digit_char_x(n));
        proof {
            assert(out@ =~= old(out)@ + enc_nat(n as nat));
        }
    } else {
        emit_nat(out, n / 10);
        out.push(digit_char_x(n % 10));
        proof {
            assert(out@ =~= old(out)@ + (enc_nat((n / 10) as nat) + seq![digit_char(
                (n % 10) as nat,
            )]));
        }
    }
}

fn key_frames_x() -> (r: Vec<char>)
    ensures
        r@ == frames_key(),
{
    let v = vec!['f', 'r', 'a', 'm', 'e', 's'];
    proof {
        assert(v@ =~= frames_key());
    }
    v
}

fn key_content_x() -> (r: Vec<char>)
    ensures
        r@ == content_key(),
{
    let v = vec!['c', 'o', 'n', 't', 'e', 'n', 't'];
    proof {
        assert(v@ =~= content_key());
    }
    v
}

fn key_current_x() -> (r: Vec<char>)
    ensures
        r@ == current_key(),
{
    let v = vec!['c', 'u', 'r', 'r', 'e', 'n', 't', '_', 'f', 'r', 'a', 'm', 'e'];
    proof {
        assert(v@ =~= current_key());
    }
    v
}

fn key_speed_x() -> (r: Vec<char>)
    ensures
        r@ == speed_key(),
{
    let v = vec!['s', 'p', 'e', 'e', 'd'];
    proof {
        assert(v@ =~= speed_key());
    }
    v
}

fn emit_frame(out: &mut Vec<char>, f: &Frame)
    ensures
        final(out)@ == old(out)@ + enc_frame(f@),
{
    out.push('{');
    let key = key_content_x();
    emit_string_chars(out, &key);
    out.push(':');
    out.push('[');
    let ghost head = old(out)@ + seq!['{'] + enc_string(content_key()) + seq![':', '['];
    proof {
        assert(out@ =~= head + enc_lines(f@.take(0)));
    }
    let mut i: usize = 0;
    while i < f.content.len()
        invariant
            i <= f.content.len(),
            f@.len() == f.content@.len(),
            out@ == head + enc_lines(f@.take(i as int)),
        decreases f.content.len() - i,
    {
        if i > 0 {
            out.push(',');
        }
        let cs = str_chars(f.content[i].as_str());
        emit_string_chars(out, &cs);
        proof {
            assert(f@[i as int] == f.content@[i as int]@);
            lemma_enc_list_snoc(f@, i as int, |l: Seq<char>| enc_string(l));
            assert(out@ =~= head + enc_lines(f@.take(i + 1)));
        }
        i = i + 1;
    }
    out.push(']');
    out.push('}');
    proof {
        assert(f@.take(f@.len() as int) =~= f@);
        assert(out@ =~= old(out)@ + enc_frame(f@));
    }
}

/// The persisted text of the store: one JSON object holding the frames,
/// the cursor and the speed, exactly as [`enc_anim`] states it.
pub fn serialize(a: &Animation) -> (r: String)
    ensures
        r@ == enc_anim(a@),
{
    let mut out: Vec<char> = Vec::new();
    out.push('{');
    let kf = key_frames_x();
    emit_string_chars(&mut out, &kf);
    out.push(':');
    out.push('[');
    let ghost head = seq!['{'] + enc_string(frames_key()) + seq![':', '['];
    proof {
        assert(a@.frames.take(0) =~= Seq::<Seq<Seq<char>>>::empty());
        assert(out@ =~= head + enc_frames(a@.frames.take(0)));
    }
    let mut i: usize = 0;
    while i < a.frames.len()
        invariant
            i <= a.frames.len(),
            a@.frames.len() == a.frames@.len(),
            out@ == head + enc_frames(a@.frames.take(i as int)),
        decreases a.frames.len() - i,
    {
        if i > 0 {
            out.push(',');
        }
        emit_frame(&mut out, &a.frames[i]);
        proof {
            assert(a@.frames[i as int] == a.frames@[i as int]@);
            lemma_enc_list_snoc(a@.frames, i as int, |f: Seq<Seq<char>>| enc_frame(f));
            assert(out@ =~= head + enc_frames(a@.frames.take(i + 1)));
        }
        i = i + 1;
    }
    out.push(']');
    out.push(',');
    let kc = key_current_x();
    emit_string_chars(&mut out, &kc);
    out.push(':');
    emit_nat(&mut out, self_cursor_u64(a));
    out.push(',');
    let ks = key_speed_x();
    emit_string_chars(&mut out, &ks);
    out.push(':');
    emit_nat(&mut out, a.speed);
    out.push('}');
    proof {
        assert(a@.frames.take(a@.frames.len() as int) =~= a@.frames);
        assert(out@ =~= enc_anim(a@));
    }
    chars_string(&out)
}

fn self_cursor_u64(a: &Animation) -> (r: u64)
    ensures
        r as nat == a@.cursor,
{
    a.current_frame as u64
}

// ---------------------------------------------------------------------
// The decoding, as a specification
// ---------------------------------------------------------------------
/// How a decode fails: the text is not lexically well formed, or it is
/// but does not have the expected fields and shapes.
#[derive(Clone, Copy, Debug, PartialEq, Eq, Structural)]
pub enum DecErr {
    Malformed,
    Mismatch,
}

/// What a parsing step yields: a value and the unread remainder, or a
/// failure.
pub enum PRes<T> {
    Val(T, Seq<char>),
    Fail(DecErr),
}

/// What decoding a whole text yields.
pub enum Decoded {
    Val(AnimModel),
    Fail(DecErr),
}

pub open spec fn is_digit(c: char) -> bool {
    c == '0' || c == '1' || c == '2' || c == '3' || c == '4' || c == '5' || c == '6' || c == '7'
        || c == '8' || c == '9'
}

/// The value of a decimal digit (meaningful when `is_digit(c)`).
pub open spec fn digit_val(c: char) -> nat {
    if c == '0' {
        0
    } else if c == '1' {
        1
    } else if c == '2' {
        2
    } else if c == '3' {
        3
    } else if c == '4' {
        4
    } else if c == '5' {
        5
    } else if c == '6' {
        6
    } else if c == '7' {
        7
    } else if c == '8' {
        8
    } else {
        9
    }
}

/// The value of a hexadecimal digit, in either case; `None` for any other
/// character.
pub open spec fn hex_val(c: char) -> Option<nat> {
    if is_digit(c) {
        Some(digit_val(c))
    } else if c == 'a' || c == 'A' {
        Some(10)
    } else if c == 'b' || c == 'B' {
        Some(11)
    } else if c == 'c' || c == 'C' {
        Some(12)
    } else if c == 'd' || c == 'D' {
        Some(13)
    } else if c == 'e' || c == 'E' {
        Some(14)
    } else if c == 'f' || c == 'F' {
        Some(15)
    } else {
        None
    }
}

/// The character a short escape stands for (meaningful on the eight short
/// escapes).
pub open spec fn short_escape(e: char) -> char {
    if e == '"' {
        '"'
    } else if e == '\\' {
        '\\'
    } else if e == '/' {
        '/'
    } else if e == 'n' {
        '\n'
    } else if e == 't' {
        '\t'
    } else if e == 'r' {
        '\r'
    } else if e == 'b' {
        '\u{8}'
    } else {
        '\u{c}'
    }
}

pub open spec fn is_short_escape(e: char) -> bool {
    e == '"' || e == '\\' || e == '/' || e == 'n' || e == 't' || e == 'r' || e == 'b' || e == 'f'
}

/// A string content after its opening quote: everything up to the closing
/// quote, with escapes resolved.  A raw control character, an unknown or
/// unfinished escape, a `\u` escape that is not four hexadecimal digits
/// below `0100`, or a missing closing quote is malformed.
pub open spec fn parse_str_body(s: Seq<char>) -> PRes<Seq<char>>
    decreases s.len(),
{
    if s.len() == 0 {
        PRes::Fail(DecErr::Malformed)
    } else if s[0] == '"' {
        PRes::Val(Seq::empty(), s.skip(1))
    } else if s[0] == '\\' {
        if s.len() < 2 {
            PRes::Fail(DecErr::Malformed)
        } else if is_short_escape(s[1]) {
            match parse_str_body(s.skip(2)) {
                PRes::Val(t, r) => PRes::Val(seq![short_escape(s[1])] + t, r),
                PRes::Fail(k) => PRes::Fail(k),
            }
        } else if s[1] == 'u' {
            if s.len() < 6 {
                PRes::Fail(DecErr::Malformed)
            } else if hex_val(s[2]) is Some && hex_val(s[3]) is Some && hex_val(s[4]) is Some
                && hex_val(s[5]) is Some {
                let code = hex_val(s[2])->Some_0 * 4096 + hex_val(s[3])->Some_0 * 256 + hex_val(
                    s[4],
                )->Some_0 * 16 + hex_val(s[5])->Some_0;
                if code < 256 {
                    match parse_str_body(s.skip(6)) {
                        PRes::Val(t, r) => PRes::Val(seq![((code as u32) as u8) as char] + t, r),
                        PRes::Fail(k) => PRes::Fail(k),
                    }
                } else {
                    PRes::Fail(DecErr::Malformed)
                }
            } else {
                PRes::Fail(DecErr::Malformed)
            }
        } else {
            PRes::Fail(DecErr::Malformed)
        }
    } else if (s[0] as u32) < 32 {
        PRes::Fail(DecErr::Malformed)
    } else {
        match parse_str_body(s.skip(1)) {
            PRes::Val(t, r) => PRes::Val(seq![s[0]] + t, r),
            PRes::Fail(k) => PRes::Fail(k),
        }
    }
}

/// A string value: a quote, a content, a quote.
pub open spec fn parse_string(s: Seq<char>) -> PRes<Seq<char>> {
    if s.len() == 0 || s[0] != '"' {
        PRes::Fail(DecErr::Malformed)
    } else {
        parse_str_body(s.skip(1))
    }
}

/// Consumes the leading digits, accumulating onto `acc`; never fails.
pub open spec fn parse_digits(s: Seq<char>, acc: nat) -> (nat, Seq<char>)
    decreases s.len(),
{
    if s.len() == 0 || !is_digit(s[0]) {
        (acc, s)
    } else {
        parse_digits(s.skip(1), acc * 10 + digit_val(s[0]))
    }
}

/// An unsigned decimal number.  A leading zero ends the number at once (as
/// the encoding never writes one except for `0` itself).  Anything that
/// does not start with a digit is a shape mismatch.
pub open spec fn parse_nat(s: Seq<char>) -> PRes<nat> {
    if s.len() == 0 || !is_digit(s[0]) {
        PRes::Fail(DecErr::Mismatch)
    } else if s[0] == '0' {
        PRes::Val(0, s.skip(1))
    } else {
        let (n, r) = parse_digits(s, 0);
        PRes::Val(n, r)
    }
}

/// A successfully parsed string consumes at least its two quotes.
pub proof fn lemma_parse_str_body_len(s: Seq<char>)
    ensures
        parse_str_body(s) matches PRes::Val(t, r) ==> r.len() < s.len(),
    decreases s.len(),
{
    if s.len() == 0 {
    } else if s[0] == '"' {
    } else if s[0] == '\\' {
        if s.len() >= 2 && is_short_escape(s[1]) {
            lemma_parse_str_body_len(s.skip(2));
        } else if s.len() >= 6 && s[1] == 'u' {
            lemma_parse_str_body_len(s.skip(6));
        }
    } else if (s[0] as u32) < 32 {
    } else {
        lemma_parse_str_body_len(s.skip(1));
    }
}

pub proof fn lemma_parse_string_len(s: Seq<char>)
    ensures
        parse_string(s) matches PRes::Val(t, r) ==> r.len() < s.len(),
{
    if s.len() > 0 && s[0] == '"' {
        lemma_parse_str_body_len(s.skip(1));
    }
}

/// One or more string values separated by commas, up to the closing
/// bracket (which is consumed).
pub open spec fn parse_line_items(s: Seq<char>) -> PRes<Seq<Seq<char>>>
    decreases s.len(),
    via parse_line_items_dec
{
    match parse_string(s) {
        PRes::Fail(k) => PRes::Fail(k),
        PRes::Val(line, r) => if r.len() == 0 {
            PRes::Fail(DecErr::Malformed)
        } else if r[0] == ',' {
            match parse_line_items(r.skip(1)) {
                PRes::Val(rest, r2) => PRes::Val(seq![line] + rest, r2),
                PRes::Fail(k) => PRes::Fail(k),
            }
        } else if r[0] == ']' {
            PRes::Val(seq![line], r.skip(1))
        } else {
            PRes::Fail(DecErr::Malformed)
        },
    }
}

#[via_fn]
proof fn parse_line_items_dec(s: Seq<char>) {
    lemma_parse_string_len(s);
}

/// A frame's line list, after its opening bracket: empty, or items.
pub open spec fn parse_lines(s: Seq<char>) -> PRes<Seq<Seq<char>>> {
    if s.len() == 0 {
        PRes::Fail(DecErr::Malformed)
    } else if s[0] == ']' {
        PRes::Val(Seq::empty(), s.skip(1))
    } else {
        parse_line_items(s)
    }
}

/// One frame object: `{"content":[ ... ]}`.  An element that is not an
/// object, a key other than `content`, or a content that is not a list is
/// a shape mismatch.
pub open spec fn parse_frame(s: Seq<char>) -> PRes<Seq<Seq<char>>> {
    if s.len() == 0 || s[0] != '{' {
        PRes::Fail(DecErr::Mismatch)
    } else if s.len() >= 2 && s[1] == '}' {
        PRes::Fail(DecErr::Mismatch)
    } else {
        match parse_string(s.skip(1)) {
            PRes::Fail(k) => PRes::Fail(k),
            PRes::Val(key, r) => if key != content_key() {
                PRes::Fail(DecErr::Mismatch)
            } else if r.len() == 0 || r[0] != ':' {
                PRes::Fail(DecErr::Malformed)
            } else if r.len() < 2 || r[1] != '[' {
                PRes::Fail(DecErr::Mismatch)
            } else {
                match parse_lines(r.skip(2)) {
                    PRes::Fail(k) => PRes::Fail(k),
                    PRes::Val(lines, r2) => if r2.len() == 0 || r2[0] != '}' {
                        PRes::Fail(DecErr::Malformed)
                    } else {
                        PRes::Val(lines, r2.skip(1))
                    },
                }
            },
        }
    }
}

/// A successfully parsed frame consumes at least one character.
pub proof fn lemma_parse_frame_len(s: Seq<char>)
    ensures
        parse_frame(s) matches PRes::Val(t, r) ==> r.len() < s.len(),
{
    if s.len() > 0 && s[0] == '{' {
        lemma_parse_string_len(s.skip(1));
        if let PRes::Val(key, r) = parse_string(s.skip(1)) {
            if key == content_key() && r.len() >= 2 && r[0] == ':' && r[1] == '[' {
                if let PRes::Val(lines, r2) = parse_lines(r.skip(2)) {
                    if r.skip(2).len() > 0 && r.skip(2)[0] == ']' {
                    } else {
                        lemma_parse_line_items_len(r.skip(2));
                    }
                }
            }
        }
    }
}

pub proof fn lemma_parse_line_items_len(s: Seq<char>)
    ensures
        parse_line_items(s) matches PRes::Val(t, r) ==> r.len() < s.len(),
    decreases s.len(),
{
    lemma_parse_string_len(s);
    if let PRes::Val(line, r) = parse_string(s) {
        if r.len() > 0 && r[0] == ',' {
            lemma_parse_line_items_len(r.skip(1));
        }
    }
}

/// One or more frame objects separated by commas, up to the closing
/// bracket (which is consumed).
pub open spec fn parse_frame_items(s: Seq<char>) -> PRes<Seq<Seq<Seq<char>>>>
    decreases s.len(),
    via parse_frame_items_dec
{
    match parse_frame(s) {
        PRes::Fail(k) => PRes::Fail(k),
        PRes::Val(frame, r) => if r.len() == 0 {
            PRes::Fail(DecErr::Malformed)
        } else if r[0] == ',' {
            match parse_frame_items(r.skip(1)) {
                PRes::Val(rest, r2) => PRes::Val(seq![frame] + rest, r2),
                PRes::Fail(k) => PRes::Fail(k),
            }
        } else if r[0] == ']' {
            PRes::Val(seq![frame], r.skip(1))
        } else {
            PRes::Fail(DecErr::Malformed)
        },
    }
}

#[via_fn]
proof fn parse_frame_items_dec(s: Seq<char>) {
    lemma_parse_frame_len(s);
}

/// The frame list, after its opening bracket: empty, or items.
pub open spec fn parse_frames(s: Seq<char>) -> PRes<Seq<Seq<Seq<char>>>> {
    if s.len() == 0 {
        PRes::Fail(DecErr::Malformed)
    } else if s[0] == ']' {
        PRes::Val(Seq::empty(), s.skip(1))
    } else {
        parse_frame_items(s)
    }
}

/// What decoding a whole persisted text yields: the store's model, or the
/// failure.  The three fields are expected in the written order; a cursor
/// beyond `usize` or a speed beyond sixty-four bits is a shape mismatch;
/// trailing text is malformed.
pub open spec fn decode_spec(s: Seq<char>) -> Decoded {
    if s.len() == 0 || s[0] != '{' {
        Decoded::Fail(DecErr::Malformed)
    } else if s.len() >= 2 && s[1] == '}' {
        Decoded::Fail(DecErr::Mismatch)
    } else {
        match parse_string(s.skip(1)) {
            PRes::Fail(k) => Decoded::Fail(k),
            PRes::Val(key1, r1) => if key1 != frames_key() {
                Decoded::Fail(DecErr::Mismatch)
            } else if r1.len() == 0 || r1[0] != ':' {
                Decoded::Fail(DecErr::Malformed)
            } else if r1.len() < 2 || r1[1] != '[' {
                Decoded::Fail(DecErr::Mismatch)
            } else {
                match parse_frames(r1.skip(2)) {
                    PRes::Fail(k) => Decoded::Fail(k),
                    PRes::Val(frames, r2) => if r2.len() == 0 {
                        Decoded::Fail(DecErr::Malformed)
                    } else if r2[0] == '}' {
                        Decoded::Fail(DecErr::Mismatch)
                    } else if r2[0] != ',' {
                        Decoded::Fail(DecErr::Malformed)
                    } else {
                        match parse_string(r2.skip(1)) {
                            PRes::Fail(k) => Decoded::Fail(k),
                            PRes::Val(key2, r3) => if key2 != current_key() {
                                Decoded::Fail(DecErr::Mismatch)
                            } else if r3.len() == 0 || r3[0] != ':' {
                                Decoded::Fail(DecErr::Malformed)
                            } else {
                                match parse_nat(r3.skip(1)) {
                                    PRes::Fail(k) => Decoded::Fail(k),
                                    PRes::Val(cursor, r4) => if cursor > usize::MAX {
                                        Decoded::Fail(DecErr::Mismatch)
                                    } else if r4.len() == 0 {
                                        Decoded::Fail(DecErr::Malformed)
                                    } else if r4[0] == '}' {
                                        Decoded::Fail(DecErr::Mismatch)
                                    } else if r4[0] != ',' {
                                        Decoded::Fail(DecErr::Malformed)
                                    } else {
                                        match parse_string(r4.skip(1)) {
                                            PRes::Fail(k) => Decoded::Fail(k),
                                            PRes::Val(key3, r5) => if key3 != speed_key() {
                                                Decoded::Fail(DecErr::Mismatch)
                                            } else if r5.len() == 0 || r5[0] != ':' {
                                                Decoded::Fail(DecErr::Malformed)
                                            } else {
                                                match parse_nat(r5.skip(1)) {
                                                    PRes::Fail(k) => Decoded::Fail(k),
                                                    PRes::Val(speed, r6) => if speed > u64::MAX {
                                                        Decoded::Fail(DecErr::Mismatch)
                                                    } else if r6.len() == 0 || r6[0] != '}' {
                                                        Decoded::Fail(DecErr::Malformed)
                                                    } else if r6.skip(1).len() != 0 {
                                                        Decoded::Fail(DecErr::Malformed)
                                                    } else {
                                                        Decoded::Val(
                                                            AnimModel {
                                                                frames,
                                                                cursor,
                                                                speed,
                                                            },
                                                        )
                                                    },
                                                }
                                            },
                                        }
                                    },
                                }
                            },
                        }
                    },
                }
            },
        }
    }
}

// ---------------------------------------------------------------------
// The round trip: decoding inverts encoding
// ---------------------------------------------------------------------
/// Powers of ten.
pub open spec fn pow10(k: nat) -> nat
    decreases k,
{
    if k == 0 {
        1
    } else {
        10 * pow10((k - 1) as nat)
    }
}

/// The number a digit string denotes.
pub open spec fn dval(d: Seq<char>) -> nat
    decreases d.len(),
{
    if d.len() == 0 {
        0
    } else {
        dval(d.take(d.len() - 1)) * 10 + digit_val(d[d.len() - 1])
    }
}

pub open spec fn all_digits(d: Seq<char>) -> bool {
    forall|k: int| 0 <= k < d.len() ==> is_digit(#[trigger] d[k])
}

proof fn lemma_digit_rt(d: nat)
    requires
        d < 10,
    ensures
        is_digit(digit_char(d)),
        digit_val(digit_char(d)) == d,
{
}

proof fn lemma_hex_rt(d: nat)
    requires
        d < 16,
    ensures
        hex_val(hex_digit(d)) == Some(d),
{
}

/// A written number is all digits, is never empty, denotes the number it
/// was written from, and has no leading zero (except `0` itself).
proof fn lemma_enc_nat_digits(n: nat)
    ensures
        all_digits(enc_nat(n)),
        enc_nat(n).len() >= 1,
        n >= 1 ==> enc_nat(n)[0] != '0',
        dval(enc_nat(n)) == n,
    decreases n,
{
    if n < 10 {
        lemma_digit_rt(n);
        let e = enc_nat(n);
        assert(e == seq![digit_char(n)]);
        assert(e.len() == 1);
        assert(e[0] == digit_char(n));
        assert(e.take(e.len() - 1) =~= Seq::<char>::empty());
        assert(dval(Seq::<char>::empty()) == 0);
        assert(dval(e) == dval(e.take(e.len() - 1)) * 10 + digit_val(e[e.len() - 1]));
        assert(dval(e) == digit_val(digit_char(n)));
    } else {
        lemma_enc_nat_digits(n / 10);
        lemma_digit_rt(n % 10);
        let a = enc_nat(n / 10);
        let e = enc_nat(n);
        assert(e == a + seq![digit_char(n % 10)]);
        assert(e.take(e.len() - 1) =~= a);
        assert(e[e.len() - 1] == digit_char(n % 10));
        assert(dval(e) == dval(a) * 10 + digit_val(digit_char(n % 10)));
        assert(dval(e) == (n / 10) * 10 + n % 10);
        vstd::arithmetic::div_mod::lemma_fundamental_div_mod(n as int, 10);
        assert(forall|k: int| 0 <= k < e.len() ==> is_digit(#[trigger] e[k])) by {
            assert(forall|k: int|
                0 <= k < a.len() ==> #[trigger] e[k] == a[k] && is_digit(a[k]));
            assert(e[e.len() - 1] == digit_char(n % 10));
        }
        assert(e[0] == a[0]);
    }
}

/// A digit in front raises the denoted number by its positional weight.
proof fn lemma_dval_cons(c: char, d: Seq<char>)
    ensures
        dval(seq![c] + d) == digit_val(c) * pow10(d.len()) + dval(d),
    decreases d.len(),
{
    let e = seq![c] + d;
    if d.len() == 0 {
        assert(e =~= seq![c]);
        assert(e.len() == 1);
        assert(e[0] == c);
        assert(e.take(e.len() - 1) =~= Seq::<char>::empty());
        assert(dval(Seq::<char>::empty()) == 0);
        assert(dval(e) == dval(e.take(e.len() - 1)) * 10 + digit_val(e[e.len() - 1]));
        assert(dval(e) == digit_val(c));
        assert(pow10(0) == 1);
        assert(dval(d) == 0);
    } else {
        let dfront = d.take(d.len() - 1);
        lemma_dval_cons(c, dfront);
        assert(e.take(e.len() - 1) =~= seq![c] + dfront);
        assert(e[e.len() - 1] == d[d.len() - 1]);
        assert(dval(e) == (digit_val(c) * pow10(dfront.len()) + dval(dfront)) * 10 + digit_val(
            d[d.len() - 1],
        ));
        assert(pow10(d.len()) == 10 * pow10((d.len() - 1) as nat));
        assert(digit_val(c) * pow10(dfront.len()) * 10 == digit_val(c) * pow10(d.len())) by {
            let p = pow10(dfront.len());
            let a = digit_val(c);
            assert(a * p * 10 == a * (10 * p)) by (nonlinear_arith);
        }
    }
}

/// Consuming a digit string onto an accumulator yields the accumulator
/// shifted by the string's length plus the string's number.
proof fn lemma_parse_digits_all(d: Seq<char>, rest: Seq<char>, acc: nat)
    requires
        all_digits(d),
        rest.len() == 0 || !is_digit(rest[0]),
    ensures
        parse_digits(d + rest, acc) == (acc * pow10(d.len()) + dval(d), rest),
    decreases d.len(),
{
    let s = d + rest;
    if d.len() == 0 {
        assert(s =~= rest);
        assert(pow10(0) == 1);
        assert(dval(d) == 0);
        assert(acc * pow10(0) == acc) by (nonlinear_arith)
            requires pow10(0) == 1;
    } else {
        assert(s[0] == d[0]);
        assert(is_digit(d[0]));
        assert(s.skip(1) =~= d.skip(1) + rest);
        assert(forall|k: int| 0 <= k < d.skip(1).len() ==> is_digit(#[trigger] d.skip(1)[k]));
        lemma_parse_digits_all(d.skip(1), rest, acc * 10 + digit_val(d[0]));
        assert(d =~= seq![d[0]] + d.skip(1));
        lemma_dval_cons(d[0], d.skip(1));
        let k = d.skip(1).len();
        let dv0 = digit_val(d[0]);
        assert((acc * 10 + dv0) * pow10(k) == acc * pow10(k + 1) + dv0 * pow10(k)) by {
            let p = pow10(k);
            assert(pow10(k + 1) == 10 * p);
            assert((acc * 10 + dv0) * p == acc * (10 * p) + dv0 * p) by (nonlinear_arith);
        }
        assert(dval(d) == dv0 * pow10(k) + dval(d.skip(1)));
        assert(pow10(d.len()) == pow10(k + 1));
    }
}

/// Parsing a written number followed by a non-digit gives the number back.
proof fn lemma_parse_nat_enc(n: nat, rest: Seq<char>)
    requires
        rest.len() == 0 || !is_digit(rest[0]),
    ensures
        parse_nat(enc_nat(n) + rest) == PRes::<nat>::Val(n, rest),
{
    lemma_enc_nat_digits(n);
    let e = enc_nat(n);
    let s = e + rest;
    assert(s[0] == e[0]);
    assert(is_digit(s[0]));
    if n == 0 {
        assert(e =~= seq!['0']);
        assert(s[0] == '0');
        assert(s.skip(1) =~= rest);
    } else {
        assert(s[0] != '0');
        lemma_parse_digits_all(e, rest, 0);
        assert(0 * pow10(e.len()) + dval(e) == n);
    }
}

/// Parsing an escaped content followed by its closing quote gives the
/// content back.
proof fn lemma_parse_str_body_enc(x: Seq<char>, rest: Seq<char>)
    ensures
        parse_str_body(esc_str(x) + seq!['"'] + rest) == PRes::<Seq<char>>::Val(x, rest),
    decreases x.len(),
{
    let s = esc_str(x) + seq!['"'] + rest;
    if x.len() == 0 {
        assert(s =~= seq!['"'] + rest);
        assert(s[0] == '"');
        assert(s.skip(1) =~= rest);
        assert(x =~= Seq::<char>::empty());
    } else {
        let c = x[0];
        let tail = x.skip(1);
        lemma_parse_str_body_enc(tail, rest);
        let inner = esc_str(tail) + seq!['"'] + rest;
        assert(esc_str(x) == esc_char(c) + esc_str(tail));
        assert(s =~= esc_char(c) + inner);
        assert(seq![c] + tail =~= x);
        if c == '"' {
            assert(s[0] == '\\');
            assert(s[1] == '"');
            assert(is_short_escape(s[1]));
            assert(short_escape(s[1]) == c);
            assert(s.skip(2) =~= inner);
        } else if c == '\\' {
            assert(s[0] == '\\');
            assert(s[1] == '\\');
            assert(is_short_escape(s[1]));
            assert(short_escape(s[1]) == c);
            assert(s.skip(2) =~= inner);
        } else if (c as u32) < 32 {
            let u = c as u32;
            assert(s[0] == '\\');
            assert(s[1] == 'u');
            assert(!is_short_escape(s[1]));
            assert(s[2] == '0');
            assert(s[3] == '0');
            assert(s[4] == hex_digit((u / 16) as nat));
            assert(s[5] == hex_digit((u % 16) as nat));
            assert(hex_val('0') == Some(0nat));
            lemma_hex_rt((u / 16) as nat);
            lemma_hex_rt((u % 16) as nat);
            let code = hex_val(s[2])->Some_0 * 4096 + hex_val(s[3])->Some_0 * 256 + hex_val(
                s[4],
            )->Some_0 * 16 + hex_val(s[5])->Some_0;
            vstd::arithmetic::div_mod::lemma_fundamental_div_mod(u as int, 16);
            assert(code == u);
            assert(code < 256);
            vstd::utf8::char_u32_cast(c, u);
            assert((u as u8) as u32 == u);
            assert(((code as u32) as u8) as char == c);
            assert(s.skip(6) =~= inner);
        } else {
            assert(s[0] == c);
            assert(s[0] != '"' && s[0] != '\\' && (s[0] as u32) >= 32);
            assert(s.skip(1) =~= inner);
        }
    }
}

/// Parsing a written string value gives its content back.
proof fn lemma_parse_string_enc(x: Seq<char>, rest: Seq<char>)
    ensures
        parse_string(enc_string(x) + rest) == PRes::<Seq<char>>::Val(x, rest),
{
    let s = enc_string(x) + rest;
    assert(s[0] == '"');
    assert(s.skip(1) =~= esc_str(x) + seq!['"'] + rest);
    lemma_parse_str_body_enc(x, rest);
}

/// Parsing a written line list (with its closing bracket) gives the lines
/// back.
proof fn lemma_parse_line_items_enc(ls: Seq<Seq<char>>, rest: Seq<char>)
    requires
        ls.len() >= 1,
    ensures
        parse_line_items(enc_lines(ls) + seq![']'] + rest) == PRes::<Seq<Seq<char>>>::Val(
            ls,
            rest,
        ),
    decreases ls.len(),
{
    let s = enc_lines(ls) + seq![']'] + rest;
    if ls.len() == 1 {
        assert(enc_lines(ls) == enc_string(ls[0]));
        let after = seq![']'] + rest;
        assert(s =~= enc_string(ls[0]) + after);
        lemma_parse_string_enc(ls[0], after);
        assert(after[0] == ']');
        assert(after.skip(1) =~= rest);
        assert(seq![ls[0]] =~= ls);
    } else {
        assert(enc_lines(ls) == enc_string(ls[0]) + seq![','] + enc_lines(ls.skip(1)));
        let after = seq![','] + (enc_lines(ls.skip(1)) + seq![']'] + rest);
        assert(s =~= enc_string(ls[0]) + after);
        lemma_parse_string_enc(ls[0], after);
        assert(after[0] == ',');
        assert(after.skip(1) =~= enc_lines(ls.skip(1)) + seq![']'] + rest);
        lemma_parse_line_items_enc(ls.skip(1), rest);
        assert(seq![ls[0]] + ls.skip(1) =~= ls);
    }
}

proof fn lemma_parse_lines_enc(ls: Seq<Seq<char>>, rest: Seq<char>)
    ensures
        parse_lines(enc_lines(ls) + seq![']'] + rest) == PRes::<Seq<Seq<char>>>::Val(ls, rest),
{
    let s = enc_lines(ls) + seq![']'] + rest;
    if ls.len() == 0 {
        assert(s =~= seq![']'] + rest);
        assert(s[0] == ']');
        assert(s.skip(1) =~= rest);
        assert(ls =~= Seq::<Seq<char>>::empty());
    } else {
        assert(enc_lines(ls)[0] == enc_string(ls[0])[0]);
        assert(s[0] == '"');
        lemma_parse_line_items_enc(ls, rest);
    }
}

/// Parsing a written frame object gives its lines back.
proof fn lemma_parse_frame_enc(f: Seq<Seq<char>>, rest: Seq<char>)
    ensures
        parse_frame(enc_frame(f) + rest) == PRes::<Seq<Seq<char>>>::Val(f, rest),
{
    let s = enc_frame(f) + rest;
    assert(s[0] == '{');
    let x1 = seq![':', '['] + enc_lines(f) + seq![']', '}'] + rest;
    assert(s.skip(1) =~= enc_string(content_key()) + x1);
    assert(s[1] == '"');
    lemma_parse_string_enc(content_key(), x1);
    assert(x1[0] == ':');
    assert(x1[1] == '[');
    let x2 = seq!['}'] + rest;
    assert(x1.skip(2) =~= enc_lines(f) + seq![']'] + x2);
    lemma_parse_lines_enc(f, x2);
    assert(x2[0] == '}');
    assert(x2.skip(1) =~= rest);
}

/// Parsing a written frame list (with its closing bracket) gives the
/// frames back.
proof fn lemma_parse_frame_items_enc(fs: Seq<Seq<Seq<char>>>, rest: Seq<char>)
    requires
        fs.len() >= 1,
    ensures
        parse_frame_items(enc_frames(fs) + seq![']'] + rest) == PRes::<Seq<Seq<Seq<char>>>>::Val(
            fs,
            rest,
        ),
    decreases fs.len(),
{
    let s = enc_frames(fs) + seq![']'] + rest;
    if fs.len() == 1 {
        assert(enc_frames(fs) == enc_frame(fs[0]));
        let after = seq![']'] + rest;
        assert(s =~= enc_frame(fs[0]) + after);
        lemma_parse_frame_enc(fs[0], after);
        assert(after[0] == ']');
        assert(after.skip(1) =~= rest);
        assert(seq![fs[0]] =~= fs);
    } else {
        assert(enc_frames(fs) == enc_frame(fs[0]) + seq![','] + enc_frames(fs.skip(1)));
        let after = seq![','] + (enc_frames(fs.skip(1)) + seq![']'] + rest);
        assert(s =~= enc_frame(fs[0]) + after);
        lemma_parse_frame_enc(fs[0], after);
        assert(after[0] == ',');
        assert(after.skip(1) =~= enc_frames(fs.skip(1)) + seq![']'] + rest);
        lemma_parse_frame_items_enc(fs.skip(1), rest);
        assert(seq![fs[0]] + fs.skip(1) =~= fs);
    }
}

proof fn lemma_parse_frames_enc(fs: Seq<Seq<Seq<char>>>, rest: Seq<char>)
    ensures
        parse_frames(enc_frames(fs) + seq![']'] + rest) == PRes::<Seq<Seq<Seq<char>>>>::Val(
            fs,
            rest,
        ),
{
    let s = enc_frames(fs) + seq![']'] + rest;
    if fs.len() == 0 {
        assert(s =~= seq![']'] + rest);
        assert(s[0] == ']');
        assert(s.skip(1) =~= rest);
        assert(fs =~= Seq::<Seq<Seq<char>>>::empty());
    } else {
        assert(enc_frames(fs)[0] == enc_frame(fs[0])[0]);
        assert(s[0] == '{');
        lemma_parse_frame_items_enc(fs, rest);
    }
}

/// Round-trip law: decoding the persisted text of any store state yields
/// exactly that state — the same frames with the same lines in the same
/// order, the same cursor, and the same speed.  Together with the exact
/// contracts of [`serialize`] and [`deserialize`], a save followed by a
/// load reproduces an observably identical store.
#[verifier::rlimit(100)]
pub proof fn lemma_round_trip(m: AnimModel)
    requires
        m.cursor <= usize::MAX,
        m.speed <= u64::MAX,
    ensures
        decode_spec(enc_anim(m)) == Decoded::Val(m),
{
    let s = enc_anim(m);
    assert(s[0] == '{');
    let x1 = seq![':', '['] + enc_frames(m.frames) + seq![']', ','] + enc_string(current_key())
        + seq![':'] + enc_nat(m.cursor) + seq![','] + enc_string(speed_key()) + seq![':']
        + enc_nat(m.speed) + seq!['}'];
    assert(s.skip(1) =~= enc_string(frames_key()) + x1);
    assert(s[1] == '"');
    lemma_parse_string_enc(frames_key(), x1);
    assert(x1[0] == ':');
    assert(x1[1] == '[');
    let x2 = seq![','] + enc_string(current_key()) + seq![':'] + enc_nat(m.cursor) + seq![',']
        + enc_string(speed_key()) + seq![':'] + enc_nat(m.speed) + seq!['}'];
    assert(x1.skip(2) =~= enc_frames(m.frames) + seq![']'] + x2);
    lemma_parse_frames_enc(m.frames, x2);
    assert(x2[0] == ',');
    let x3 = seq![':'] + enc_nat(m.cursor) + seq![','] + enc_string(speed_key()) + seq![':']
        + enc_nat(m.speed) + seq!['}'];
    assert(x2.skip(1) =~= enc_string(current_key()) + x3);
    lemma_parse_string_enc(current_key(), x3);
    assert(x3[0] == ':');
    let x4 = seq![','] + enc_string(speed_key()) + seq![':'] + enc_nat(m.speed) + seq!['}'];
    assert(x3.skip(1) =~= enc_nat(m.cursor) + x4);
    assert(x4[0] == ',');
    assert(!is_digit(x4[0]));
    lemma_parse_nat_enc(m.cursor, x4);
    let x5 = seq![':'] + enc_nat(m.speed) + seq!['}'];
    assert(x4.skip(1) =~= enc_string(speed_key()) + x5);
    lemma_parse_string_enc(speed_key(), x5);
    assert(x5[0] == ':');
    let x6 = seq!['}'];
    assert(x5.skip(1) =~= enc_nat(m.speed) + x6);
    assert(!is_digit(x6[0]));
    lemma_parse_nat_enc(m.speed, x6);
    assert(x6[0] == '}');
    assert(x6.skip(1) =~= Seq::<char>::empty());
    assert(decode_spec(s) == Decoded::Val(AnimModel { frames: m.frames, cursor: m.cursor, speed: m.speed }));
    assert(AnimModel { frames: m.frames, cursor: m.cursor, speed: m.speed } == m);
}

// ---------------------------------------------------------------------
// The verified decoder
// ---------------------------------------------------------------------
pub(crate) fn is_digit_x(c: char) -> (r: bool)
    ensures
        r == is_digit(c),
{
    c == '0' || c == '1' || c == '2' || c == '3' || c == '4' || c == '5' || c == '6' || c == '7'
        || c == '8' || c == '9'
}

pub(crate) fn digit_val_x(c: char) -> (d: u64)
    requires
        is_digit(c),
    ensures
        d == digit_val(c),
{
    if c == '0' {
        0
    } else if c == '1' {
        1
    } else if c == '2' {
        2
    } else if c == '3' {
        3
    } else if c == '4' {
        4
    } else if c == '5' {
        5
    } else if c == '6' {
        6
    } else if c == '7' {
        7
    } else if c == '8' {
        8
    } else {
        9
    }
}

fn hex_val_x(c: char) -> (r: Option<u32>)
    ensures
        match r {
            Some(d) => hex_val(c) == Some(d as nat) && d < 16,
            None => hex_val(c) is None,
        },
{
    if is_digit_x(c) {
        Some(digit_val_x(c) as u32)
    } else if c == 'a' || c == 'A' {
        Some(10)
    } else if c == 'b' || c == 'B' {
        Some(11)
    } else if c == 'c' || c == 'C' {
        Some(12)
    } else if c == 'd' || c == 'D' {
        Some(13)
    } else if c == 'e' || c == 'E' {
        Some(14)
    } else if c == 'f' || c == 'F' {
        Some(15)
    } else {
        None
    }
}

fn short_escape_x(e: char) -> (c: char)
    requires
        is_short_escape(e),
    ensures
        c == short_escape(e),
{
    if e == '"' {
        '"'
    } else if e == '\\' {
        '\\'
    } else if e == '/' {
        '/'
    } else if e == 'n' {
        '\n'
    } else if e == 't' {
        '\t'
    } else if e == 'r' {
        '\r'
    } else if e == 'b' {
        '\u{8}'
    } else {
        '\u{c}'
    }
}

fn px_str_body(v: &Vec<char>, i: usize, out: &mut Vec<char>) -> (r: Result<usize, DecErr>)
    requires
        i <= v@.len(),
    ensures
        match r {
            Ok(j) => i <= j <= v@.len() && (parse_str_body(v@.skip(i as int)) matches PRes::Val(
                t,
                rest,
            ) && final(out)@ == old(out)@ + t && rest == v@.skip(j as int)),
            Err(k) => parse_str_body(v@.skip(i as int)) == PRes::<Seq<char>>::Fail(k),
        },
    decreases v@.len() - i,
{
    let ghost s = v@.skip(i as int);
    if i == v.len() {
        return Err(DecErr::Malformed);
    }
    let c = v[i];
    proof {
        assert(s[0] == v@[i as int]);
    }
    if c == '"' {
        proof {
            assert(s.skip(1) =~= v@.skip(i + 1));
            assert(old(out)@ + Seq::<char>::empty() =~= old(out)@);
        }
        Ok(i + 1)
    } else if c == '\\' {
        if i + 1 == v.len() {
            return Err(DecErr::Malformed);
        }
        let e = v[i + 1];
        proof {
            assert(s[1] == v@[i + 1]);
        }
        if e == '"' || e == '\\' || e == '/' || e == 'n' || e == 't' || e == 'r' || e == 'b' || e
            == 'f' {
            let u = short_escape_x(e);
            out.push(u);
            let ghost mid = out@;
            proof {
                assert(s.skip(2) =~= v@.skip(i + 2));
            }
            match px_str_body(v, i + 2, out) {
                Ok(j) => {
                    proof {
                        if let PRes::Val(t2, rest) = parse_str_body(v@.skip(i + 2)) {
                            assert(old(out)@ + (seq![short_escape(s[1])] + t2) =~= (old(out)@
                                + seq![short_escape(s[1])]) + t2);
                        }
                    }
                    Ok(j)
                },
                Err(k) => Err(k),
            }
        } else if e == 'u' {
            if v.len() - i < 6 {
                return Err(DecErr::Malformed);
            }
            proof {
                assert(s.len() >= 6);
                assert(s[2] == v@[i + 2]);
                assert(s[3] == v@[i + 3]);
                assert(s[4] == v@[i + 4]);
                assert(s[5] == v@[i + 5]);
            }
            let h2 = hex_val_x(v[i + 2]);
            let h3 = hex_val_x(v[i + 3]);
            let h4 = hex_val_x(v[i + 4]);
            let h5 = hex_val_x(v[i + 5]);
            match (h2, h3, h4, h5) {
                (Some(a), Some(b), Some(cc), Some(d)) => {
                    let code: u32 = a * 4096 + b * 256 + cc * 16 + d;
                    if code < 256 {
                        let ch = (code as u8) as char;
                        out.push(ch);
                        let ghost mid = out@;
                        proof {
                            assert(s.skip(6) =~= v@.skip(i + 6));
                        }
                        match px_str_body(v, i + 6, out) {
                            Ok(j) => {
                                proof {
                                    if let PRes::Val(t2, rest) = parse_str_body(v@.skip(i + 6)) {
                                        assert(old(out)@ + (seq![ch] + t2) =~= (old(out)@
                                            + seq![ch]) + t2);
                                    }
                                }
                                Ok(j)
                            },
                            Err(k) => Err(k),
                        }
                    } else {
                        Err(DecErr::Malformed)
                    }
                },
                _ => Err(DecErr::Malformed),
            }
        } else {
            Err(DecErr::Malformed)
        }
    } else if (c as u32) < 32 {
        Err(DecErr::Malformed)
    } else {
        out.push(c);
        proof {
            assert(s.skip(1) =~= v@.skip(i + 1));
        }
        match px_str_body(v, i + 1, out) {
            Ok(j) => {
                proof {
                    if let PRes::Val(t2, rest) = parse_str_body(v@.skip(i + 1)) {
                        assert(old(out)@ + (seq![s[0]] + t2) =~= (old(out)@ + seq![s[0]]) + t2);
                    }
                }
                Ok(j)
            },
            Err(k) => Err(k),
        }
    }
}

fn px_string(v: &Vec<char>, i: usize) -> (r: Result<(Vec<char>, usize), DecErr>)
    requires
        i <= v@.len(),
    ensures
        match r {
            Ok(p) => i <= p.1 <= v@.len() && parse_string(v@.skip(i as int)) == PRes::<
                Seq<char>,
            >::Val(p.0@, v@.skip(p.1 as int)),
            Err(k) => parse_string(v@.skip(i as int)) == PRes::<Seq<char>>::Fail(k),
        },
{
    let ghost s = v@.skip(i as int);
    if i == v.len() {
        return Err(DecErr::Malformed);
    }
    proof {
        assert(s[0] == v@[i as int]);
    }
    if v[i] != '"' {
        return Err(DecErr::Malformed);
    }
    let mut out: Vec<char> = Vec::new();
    proof {
        assert(s.skip(1) =~= v@.skip(i + 1));
    }
    match px_str_body(v, i + 1, &mut out) {
        Ok(j) => {
            proof {
                if let PRes::Val(t, rest) = parse_str_body(v@.skip(i + 1)) {
                    assert(out@ =~= t);
                }
            }
            Ok((out, j))
        },
        Err(k) => Err(k),
    }
}

/// The digits still to come never lower the accumulated value.
proof fn lemma_parse_digits_ge(s: Seq<char>, acc: nat)
    ensures
        parse_digits(s, acc).0 >= acc,
    decreases s.len(),
{
    if s.len() > 0 && is_digit(s[0]) {
        lemma_parse_digits_ge(s.skip(1), acc * 10 + digit_val(s[0]));
    }
}

fn px_digits(v: &Vec<char>, i: usize, acc: u64) -> (r: Result<(u64, usize), DecErr>)
    requires
        i <= v@.len(),
    ensures
        match r {
            Ok(p) => i <= p.1 <= v@.len() && parse_digits(v@.skip(i as int), acc as nat) == (
                p.0 as nat,
                v@.skip(p.1 as int),
            ),
            Err(k) => k == DecErr::Mismatch && parse_digits(v@.skip(i as int), acc as nat).0
                > u64::MAX,
        },
    decreases v@.len() - i,
{
    let ghost s = v@.skip(i as int);
    if i == v.len() {
        return Ok((acc, i));
    }
    let c = v[i];
    proof {
        assert(s[0] == v@[i as int]);
        assert(s.skip(1) =~= v@.skip(i + 1));
    }
    if is_digit_x(c) {
        let d = digit_val_x(c);
        match acc.checked_mul(10) {
            Some(m) => match m.checked_add(d) {
                Some(acc2) => px_digits(v, i + 1, acc2),
                None => {
                    proof {
                        lemma_parse_digits_ge(s.skip(1), (acc * 10 + digit_val(s[0])) as nat);
                    }
                    Err(DecErr::Mismatch)
                },
            },
            None => {
                proof {
                    lemma_parse_digits_ge(s.skip(1), (acc as nat) * 10 + digit_val(s[0]));
                }
                Err(DecErr::Mismatch)
            },
        }
    } else {
        Ok((acc, i))
    }
}

fn px_nat(v: &Vec<char>, i: usize) -> (r: Result<(u64, usize), DecErr>)
    requires
        i <= v@.len(),
    ensures
        match r {
            Ok(p) => i <= p.1 <= v@.len() && parse_nat(v@.skip(i as int)) == PRes::<nat>::Val(
                p.0 as nat,
                v@.skip(p.1 as int),
            ),
            Err(k) => k == DecErr::Mismatch && (parse_nat(v@.skip(i as int)) is Fail || (
            parse_nat(v@.skip(i as int)) matches PRes::Val(n, _) && n > u64::MAX)),
        },
{
    let ghost s = v@.skip(i as int);
    if i == v.len() {
        return Err(DecErr::Mismatch);
    }
    let c = v[i];
    proof {
        assert(s[0] == v@[i as int]);
    }
    if !is_digit_x(c) {
        return Err(DecErr::Mismatch);
    }
    if c == '0' {
        proof {
            assert(s.skip(1) =~= v@.skip(i + 1));
        }
        return Ok((0, i + 1));
    }
    px_digits(v, i, 0)
}

fn eq_chars(a: &Vec<char>, b: &Vec<char>) -> (r: bool)
    ensures
        r == (a@ == b@),
{
    if a.len() != b.len() {
        return false;
    }
    let mut i: usize = 0;
    while i < a.len()
        invariant
            i <= a@.len(),
            a@.len() == b@.len(),
            forall|k: int| 0 <= k < i ==> a@[k] == b@[k],
        decreases a@.len() - i,
    {
        if a[i] != b[i] {
            return false;
        }
        i = i + 1;
    }
    proof {
        assert(a@ =~= b@);
    }
    true
}

fn px_line_items(v: &Vec<char>, i: usize, acc: &mut Vec<String>) -> (r: Result<usize, DecErr>)
    requires
        i <= v@.len(),
    ensures
        match r {
            Ok(j) => i <= j <= v@.len() && (parse_line_items(v@.skip(i as int)) matches PRes::Val(
                t,
                rest,
            ) && final(acc).deep_view() == old(acc).deep_view() + t && rest == v@.skip(j as int)),
            Err(k) => parse_line_items(v@.skip(i as int)) == PRes::<Seq<Seq<char>>>::Fail(k),
        },
    decreases v@.len() - i,
{
    let ghost s = v@.skip(i as int);
    match px_string(v, i) {
        Err(k) => Err(k),
        Ok((cs, j)) => {
            let ghost rest = v@.skip(j as int);
            proof {
                lemma_parse_string_len(s);
            }
            let line = chars_string(&cs);
            if j == v.len() {
                return Err(DecErr::Malformed);
            }
            let c = v[j];
            proof {
                assert(rest[0] == v@[j as int]);
                assert(rest.skip(1) =~= v@.skip(j + 1));
            }
            if c == ',' {
                acc.push(line);
                proof {
                    assert(acc.deep_view() =~= old(acc).deep_view().push(cs@));
                }
                match px_line_items(v, j + 1, acc) {
                    Ok(j2) => {
                        proof {
                            if let PRes::Val(t2, rest2) = parse_line_items(v@.skip(j + 1)) {
                                assert(old(acc).deep_view() + (seq![cs@] + t2) =~= (old(
                                    acc,
                                ).deep_view().push(cs@)) + t2);
                            }
                        }
                        Ok(j2)
                    },
                    Err(k) => Err(k),
                }
            } else if c == ']' {
                acc.push(line);
                proof {
                    assert(acc.deep_view() =~= old(acc).deep_view() + seq![cs@]);
                }
                Ok(j + 1)
            } else {
                Err(DecErr::Malformed)
            }
        },
    }
}

fn px_lines(v: &Vec<char>, i: usize) -> (r: Result<(Vec<String>, usize), DecErr>)
    requires
        i <= v@.len(),
    ensures
        match r {
            Ok(p) => i <= p.1 <= v@.len() && parse_lines(v@.skip(i as int)) == PRes::<
                Seq<Seq<char>>,
            >::Val(p.0.deep_view(), v@.skip(p.1 as int)),
            Err(k) => parse_lines(v@.skip(i as int)) == PRes::<Seq<Seq<char>>>::Fail(k),
        },
{
    let ghost s = v@.skip(i as int);
    if i == v.len() {
        return Err(DecErr::Malformed);
    }
    proof {
        assert(s[0] == v@[i as int]);
    }
    if v[i] == ']' {
        let empty: Vec<String> = Vec::new();
        proof {
            assert(s.skip(1) =~= v@.skip(i + 1));
            assert(empty.deep_view() =~= Seq::<Seq<char>>::empty());
        }
        return Ok((empty, i + 1));
    }
    let mut acc: Vec<String> = Vec::new();
    proof {
        assert(acc.deep_view() =~= Seq::<Seq<char>>::empty());
    }
    match px_line_items(v, i, &mut acc) {
        Ok(j) => {
            proof {
                if let PRes::Val(t, rest) = parse_line_items(s) {
                    assert(acc.deep_view() =~= t);
                }
            }
            Ok((acc, j))
        },
        Err(k) => Err(k),
    }
}

fn px_frame(v: &Vec<char>, i: usize) -> (r: Result<(Frame, usize), DecErr>)
    requires
        i <= v@.len(),
    ensures
        match r {
            Ok(p) => i <= p.1 <= v@.len() && parse_frame(v@.skip(i as int)) == PRes::<
                Seq<Seq<char>>,
            >::Val(p.0@, v@.skip(p.1 as int)),
            Err(k) => parse_frame(v@.skip(i as int)) == PRes::<Seq<Seq<char>>>::Fail(k),
        },
{
    let ghost s = v@.skip(i as int);
    if i == v.len() {
        return Err(DecErr::Mismatch);
    }
    proof {
        assert(s[0] == v@[i as int]);
    }
    if v[i] != '{' {
        return Err(DecErr::Mismatch);
    }
    if i + 1 < v.len() {
        proof {
            assert(s[1] == v@[i + 1]);
        }
        if v[i + 1] == '}' {
            return Err(DecErr::Mismatch);
        }
    }
    proof {
        assert(s.skip(1) =~= v@.skip(i + 1));
    }
    match px_string(v, i + 1) {
        Err(k) => Err(k),
        Ok((key, j)) => {
            let ghost r1 = v@.skip(j as int);
            let kc = key_content_x();
            if !eq_chars(&key, &kc) {
                return Err(DecErr::Mismatch);
            }
            if j == v.len() {
                return Err(DecErr::Malformed);
            }
            proof {
                assert(r1[0] == v@[j as int]);
            }
            if v[j] != ':' {
                return Err(DecErr::Malformed);
            }
            if j + 1 == v.len() {
                return Err(DecErr::Mismatch);
            }
            proof {
                assert(r1[1] == v@[j + 1]);
            }
            if v[j + 1] != '[' {
                return Err(DecErr::Mismatch);
            }
            proof {
                assert(r1.skip(2) =~= v@.skip(j + 2));
            }
            match px_lines(v, j + 2) {
                Err(k) => Err(k),
                Ok((lines, j2)) => {
                    let ghost r2 = v@.skip(j2 as int);
                    if j2 == v.len() {
                        return Err(DecErr::Malformed);
                    }
                    proof {
                        assert(r2[0] == v@[j2 as int]);
                        assert(r2.skip(1) =~= v@.skip(j2 + 1));
                    }
                    if v[j2] != '}' {
                        return Err(DecErr::Malformed);
                    }
                    let f = Frame { content: lines };
                    Ok((f, j2 + 1))
                },
            }
        },
    }
}

fn px_frame_items(v: &Vec<char>, i: usize, acc: &mut Vec<Frame>) -> (r: Result<usize, DecErr>)
    requires
        i <= v@.len(),
    ensures
        match r {
            Ok(j) => i <= j <= v@.len() && (parse_frame_items(v@.skip(i as int)) matches PRes::Val(
                t,
                rest,
            ) && frames_view(final(acc)@) == frames_view(old(acc)@) + t && rest == v@.skip(
                j as int,
            )),
            Err(k) => parse_frame_items(v@.skip(i as int)) == PRes::<Seq<Seq<Seq<char>>>>::Fail(k),
        },
    decreases v@.len() - i,
{
    let ghost s = v@.skip(i as int);
    match px_frame(v, i) {
        Err(k) => Err(k),
        Ok((frame, j)) => {
            let ghost fv = frame@;
            let ghost rest = v@.skip(j as int);
            proof {
                lemma_parse_frame_len(s);
            }
            if j == v.len() {
                return Err(DecErr::Malformed);
            }
            let c = v[j];
            proof {
                assert(rest[0] == v@[j as int]);
                assert(rest.skip(1) =~= v@.skip(j + 1));
            }
            if c == ',' {
                acc.push(frame);
                proof {
                    assert(frames_view(acc@) =~= frames_view(old(acc)@).push(fv));
                }
                match px_frame_items(v, j + 1, acc) {
                    Ok(j2) => {
                        proof {
                            if let PRes::Val(t2, rest2) = parse_frame_items(v@.skip(j + 1)) {
                                assert(frames_view(old(acc)@) + (seq![fv] + t2) =~= (frames_view(
                                    old(acc)@,
                                ).push(fv)) + t2);
                            }
                        }
                        Ok(j2)
                    },
                    Err(k) => Err(k),
                }
            } else if c == ']' {
                acc.push(frame);
                proof {
                    assert(frames_view(acc@) =~= frames_view(old(acc)@) + seq![fv]);
                }
                Ok(j + 1)
            } else {
                Err(DecErr::Malformed)
            }
        },
    }
}

fn px_frames(v: &Vec<char>, i: usize) -> (r: Result<(Vec<Frame>, usize), DecErr>)
    requires
        i <= v@.len(),
    ensures
        match r {
            Ok(p) => i <= p.1 <= v@.len() && parse_frames(v@.skip(i as int)) == PRes::<
                Seq<Seq<Seq<char>>>,
            >::Val(frames_view(p.0@), v@.skip(p.1 as int)),
            Err(k) => parse_frames(v@.skip(i as int)) == PRes::<Seq<Seq<Seq<char>>>>::Fail(k),
        },
{
    let ghost s = v@.skip(i as int);
    if i == v.len() {
        return Err(DecErr::Malformed);
    }
    proof {
        assert(s[0] == v@[i as int]);
    }
    if v[i] == ']' {
        let empty: Vec<Frame> = Vec::new();
        proof {
            assert(s.skip(1) =~= v@.skip(i + 1));
            assert(frames_view(empty@) =~= Seq::<Seq<Seq<char>>>::empty());
        }
        return Ok((empty, i + 1));
    }
    let mut acc: Vec<Frame> = Vec::new();
    proof {
        assert(frames_view(acc@) =~= Seq::<Seq<Seq<char>>>::empty());
    }
    match px_frame_items(v, i, &mut acc) {
        Ok(j) => {
            proof {
                if let PRes::Val(t, rest) = parse_frame_items(s) {
                    assert(frames_view(acc@) =~= t);
                }
            }
            Ok((acc, j))
        },
        Err(k) => Err(k),
    }
}

fn dec_err(k: DecErr) -> (r: AnimError)
    ensures
        k == DecErr::Malformed ==> r == AnimError::MalformedData,
        k == DecErr::Mismatch ==> r == AnimError::SchemaMismatch,
{
    match k {
        DecErr::Malformed => AnimError::MalformedData,
        DecErr::Mismatch => AnimError::SchemaMismatch,
    }
}

/// Reconstructs a store from its persisted text, exactly as [`decode_spec`]
/// states it: a malformed text or one of the wrong shape is refused with
/// the matching error, and a text that decodes yields exactly the decoded
/// state.  The store invariant is *not* checked here: a persisted text may
/// encode a state that breaks it (a zero speed, a cursor outside the
/// frames), and the loading path must re-validate — and may repair — what
/// it got, for instance through [`Animation::from_loaded`], before the
/// store is used.
#[verifier::rlimit(100)]
pub fn deserialize(text: &str) -> (r: Result<Animation, AnimError>)
    ensures
        match decode_spec(text@) {
            Decoded::Fail(DecErr::Malformed) => r == Err::<Animation, AnimError>(
                AnimError::MalformedData,
            ),
            Decoded::Fail(DecErr::Mismatch) => r == Err::<Animation, AnimError>(
                AnimError::SchemaMismatch,
            ),
            Decoded::Val(m) => r matches Ok(a) && a@ == m,
        },
{
    let v = str_chars(text);
    if v.len() == 0 {
        return Err(AnimError::MalformedData);
    }
    if v[0] != '{' {
        return Err(AnimError::MalformedData);
    }
    if v.len() >= 2 && v[1] == '}' {
        return Err(AnimError::SchemaMismatch);
    }
    let key1 = match px_string(&v, 1) {
        Err(k) => {
            return Err(dec_err(k));
        },
        Ok(p) => p,
    };
    let (key1v, j1) = key1;
    let ghost r1 = v@.skip(j1 as int);
    let kf = key_frames_x();
    if !eq_chars(&key1v, &kf) {
        return Err(AnimError::SchemaMismatch);
    }
    if j1 == v.len() {
        return Err(AnimError::MalformedData);
    }
    proof {
        assert(r1[0] == v@[j1 as int]);
    }
    if v[j1] != ':' {
        return Err(AnimError::MalformedData);
    }
    if j1 + 1 == v.len() {
        return Err(AnimError::SchemaMismatch);
    }
    proof {
        assert(r1[1] == v@[j1 + 1]);
        assert(r1.skip(2) =~= v@.skip(j1 + 2));
    }
    if v[j1 + 1] != '[' {
        return Err(AnimError::SchemaMismatch);
    }
    let frames = match px_frames(&v, j1 + 2) {
        Err(k) => {
            return Err(dec_err(k));
        },
        Ok(p) => p,
    };
    let (frames_vec, j2) = frames;
    let ghost r2 = v@.skip(j2 as int);
    if j2 == v.len() {
        return Err(AnimError::MalformedData);
    }
    proof {
        assert(r2[0] == v@[j2 as int]);
        assert(r2.skip(1) =~= v@.skip(j2 + 1));
    }
    if v[j2] == '}' {
        return Err(AnimError::SchemaMismatch);
    }
    if v[j2] != ',' {
        return Err(AnimError::MalformedData);
    }
    let key2 = match px_string(&v, j2 + 1) {
        Err(k) => {
            return Err(dec_err(k));
        },
        Ok(p) => p,
    };
    let (key2v, j3) = key2;
    let ghost r3 = v@.skip(j3 as int);
    let kc = key_current_x();
    if !eq_chars(&key2v, &kc) {
        return Err(AnimError::SchemaMismatch);
    }
    if j3 == v.len() {
        return Err(AnimError::MalformedData);
    }
    proof {
        assert(r3[0] == v@[j3 as int]);
        assert(r3.skip(1) =~= v@.skip(j3 + 1));
    }
    if v[j3] != ':' {
        return Err(AnimError::MalformedData);
    }
    let cur = match px_nat(&v, j3 + 1) {
        Err(k) => {
            return Err(dec_err(k));
        },
        Ok(p) => p,
    };
    let (cur64, j4) = cur;
    let ghost r4 = v@.skip(j4 as int);
    if cur64 > usize::MAX as u64 {
        return Err(AnimError::SchemaMismatch);
    }
    let cursor = cur64 as usize;
    if j4 == v.len() {
        return Err(AnimError::MalformedData);
    }
    proof {
        assert(r4[0] == v@[j4 as int]);
        assert(r4.skip(1) =~= v@.skip(j4 + 1));
    }
    if v[j4] == '}' {
        return Err(AnimError::SchemaMismatch);
    }
    if v[j4] != ',' {
        return Err(AnimError::MalformedData);
    }
    let key3 = match px_string(&v, j4 + 1) {
        Err(k) => {
            return Err(dec_err(k));
        },
        Ok(p) => p,
    };
    let (key3v, j5) = key3;
    let ghost r5 = v@.skip(j5 as int);
    let ks = key_speed_x();
    if !eq_chars(&key3v, &ks) {
        return Err(AnimError::SchemaMismatch);
    }
    if j5 == v.len() {
        return Err(AnimError::MalformedData);
    }
    proof {
        assert(r5[0] == v@[j5 as int]);
        assert(r5.skip(1) =~= v@.skip(j5 + 1));
    }
    if v[j5] != ':' {
        return Err(AnimError::MalformedData);
    }
    let sp = match px_nat(&v, j5 + 1) {
        Err(k) => {
            return Err(dec_err(k));
        },
        Ok(p) => p,
    };
    let (speed, j6) = sp;
    let ghost r6 = v@.skip(j6 as int);
    if j6 == v.len() {
        return Err(AnimError::MalformedData);
    }
    proof {
        assert(r6[0] == v@[j6 as int]);
        assert(r6.skip(1) =~= v@.skip(j6 + 1));
    }
    if v[j6] != '}' {
        return Err(AnimError::MalformedData);
    }
    if j6 + 1 != v.len() {
        return Err(AnimError::MalformedData);
    }
    let ghost m = AnimModel {
        frames: frames_view(frames_vec@),
        cursor: cur64 as nat,
        speed: speed as nat,
    };
    proof {
        assert(decode_spec(text@) == Decoded::Val(m));
    }
    let a = Animation { frames: frames_vec, current_frame: cursor, speed };
    proof {
        assert(a@ == m);
    }
    Ok(a)
}

} // verus!

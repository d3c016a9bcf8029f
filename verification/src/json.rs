//! The store's line format: flat JSON objects, one per line.
//!
//! Each row is written as a single JSON object whose values are scalars
//! (strings, `null`, booleans, numbers). The writer is canonical — no
//! whitespace, fields in a fixed order, control characters escaped — so that
//! a table's saved form is byte-identical for a given in-memory state. The
//! parser accepts the canonical form plus the usual JSON freedoms that other
//! writers of the same format use: whitespace between tokens, short escapes,
//! `\u00XX` escapes for control characters, and unknown scalar fields.

use vstd::prelude::*;
use crate::ident::hex_digit_char;
use crate::ident::is_hex_digit;

verus! {

/// A scalar JSON value. Numbers are kept as raw text: the store compares
/// and rewrites them but never does arithmetic on them.
pub enum JsonVal {
    Null,
    Bool(bool),
    Num(String),
    Str(String),
}

/// The mathematical model of a scalar JSON value.
pub enum JsonValM {
    Null,
    Bool(bool),
    Num(Seq<char>),
    Str(Seq<char>),
}

impl View for JsonVal {
    type V = JsonValM;

    open spec fn view(&self) -> JsonValM {
        match self {
            JsonVal::Null => JsonValM::Null,
            JsonVal::Bool(b) => JsonValM::Bool(*b),
            JsonVal::Num(s) => JsonValM::Num(s@),
            JsonVal::Str(s) => JsonValM::Str(s@),
        }
    }
}

/// One field of a JSON object.
pub struct JField {
    pub name: String,
    pub value: JsonVal,
}

/// The model of a field: its name and value.
pub struct JFieldM {
    pub name: Seq<char>,
    pub value: JsonValM,
}

impl View for JField {
    type V = JFieldM;

    open spec fn view(&self) -> JFieldM {
        JFieldM { name: self.name@, value: self.value@ }
    }
}

/// The models of a vector of fields.
pub open spec fn fields_view(fields: Seq<JField>) -> Seq<JFieldM> {
    fields.map_values(|f: JField| f@)
}

/// A control character, which JSON requires to be escaped.
pub open spec fn is_ctrl(c: char) -> bool {
    (c as nat) < 32
}

/// Characters that may appear in a number token.
pub open spec fn is_num_char(c: char) -> bool {
    ('0' <= c && c <= '9') || c == '-' || c == '+' || c == '.' || c == 'e' || c == 'E'
}

/// JSON whitespace.
pub open spec fn is_json_ws(c: char) -> bool {
    c == ' ' || c == '\t' || c == '\n' || c == '\r'
}

/// A name that can stand as a JSON object key in this format: non-empty so
/// a field is visible, and free of characters that the canonical writer
/// would escape, so that names survive a round trip unchanged.
pub open spec fn name_wf(name: Seq<char>) -> bool {
    forall|i: int| 0 <= i < name.len() ==> plain_char(#[trigger] name[i])
}

/// A character the canonical writer passes through unescaped.
pub open spec fn plain_char(c: char) -> bool {
    c != '"' && c != '\\' && !is_ctrl(c)
}

/// A number token the parser would read back as written: non-empty, all
/// number characters.
pub open spec fn num_wf(s: Seq<char>) -> bool {
    s.len() > 0 && forall|i: int| 0 <= i < s.len() ==> is_num_char(#[trigger] s[i])
}

/// A value the canonical writer can emit and the parser will read back.
pub open spec fn val_wf(v: JsonValM) -> bool {
    match v {
        JsonValM::Num(s) => num_wf(s),
        _ => true,
    }
}

/// A field list the canonical writer can emit and the parser will read
/// back: well-formed names and values.
pub open spec fn fields_wf(fields: Seq<JFieldM>) -> bool {
    forall|i: int|
        0 <= i < fields.len() ==> name_wf(#[trigger] fields[i].name) && val_wf(fields[i].value)
}

/// The escape sequence the canonical writer uses for one character.
pub open spec fn escape_char(c: char) -> Seq<char> {
    if c == '"' {
        seq!['\\', '"']
    } else if c == '\\' {
        seq!['\\', '\\']
    } else if c == '\n' {
        seq!['\\', 'n']
    } else if c == '\r' {
        seq!['\\', 'r']
    } else if c == '\t' {
        seq!['\\', 't']
    } else if is_ctrl(c) {
        seq![
            '\\',
            'u',
            '0',
            '0',
            hex_digit_char((c as nat) / 16),
            hex_digit_char((c as nat) % 16),
        ]
    } else {
        seq![c]
    }
}

/// The body of a canonical JSON string: every character escaped as needed.
pub open spec fn escape(s: Seq<char>) -> Seq<char>
    decreases s.len(),
{
    if s.len() == 0 {
        Seq::empty()
    } else {
        escape_char(s[0]) + escape(s.drop_first())
    }
}

/// A canonical JSON string: the escaped body in double quotes.
pub open spec fn quote(s: Seq<char>) -> Seq<char> {
    seq!['"'] + escape(s) + seq!['"']
}

/// The canonical rendering of a scalar value.
pub open spec fn ser_val(v: JsonValM) -> Seq<char> {
    match v {
        JsonValM::Null => seq!['n', 'u', 'l', 'l'],
        JsonValM::Bool(b) => if b {
            seq!['t', 'r', 'u', 'e']
        } else {
            seq!['f', 'a', 'l', 's', 'e']
        },
        JsonValM::Num(s) => s,
        JsonValM::Str(s) => quote(s),
    }
}

/// The canonical rendering of one field.
pub open spec fn ser_field(f: JFieldM) -> Seq<char> {
    quote(f.name) + seq![':'] + ser_val(f.value)
}

/// The canonical rendering of a comma-separated field list.
pub open spec fn ser_fields(fields: Seq<JFieldM>) -> Seq<char>
    decreases fields.len(),
{
    if fields.len() == 0 {
        Seq::empty()
    } else if fields.len() == 1 {
        ser_field(fields[0])
    } else {
        ser_field(fields[0]) + seq![','] + ser_fields(fields.drop_first())
    }
}

/// The canonical rendering of a whole object.
pub open spec fn ser_obj(fields: Seq<JFieldM>) -> Seq<char> {
    seq!['{'] + ser_fields(fields) + seq!['}']
}

/// Appending a character to a string extends its escaped form at the end.
proof fn lemma_escape_push(s: Seq<char>, c: char)
    ensures
        escape(s.push(c)) == escape(s) + escape_char(c),
    decreases s.len(),
{
    if s.len() == 0 {
        let p = s.push(c);
        assert(p[0] == c);
        assert(p.drop_first() =~= Seq::<char>::empty());
        assert(escape(p.drop_first()) == Seq::<char>::empty());
        assert(escape(p) == escape_char(c) + escape(p.drop_first()));
        assert(escape_char(c) + Seq::<char>::empty() =~= escape_char(c));
        assert(escape(s) + escape_char(c) =~= escape_char(c));
    } else {
        assert(s.push(c)[0] == s[0]);
        assert(s.push(c).drop_first() =~= s.drop_first().push(c));
        lemma_escape_push(s.drop_first(), c);
        assert(escape(s.push(c)) == escape_char(s[0]) + (escape(s.drop_first())
            + escape_char(c)));
        assert(escape_char(s[0]) + (escape(s.drop_first()) + escape_char(c)) =~= (escape_char(
            s[0],
        ) + escape(s.drop_first())) + escape_char(c));
    }
}

/// Appending a field to a list extends its rendering at the end.
proof fn lemma_ser_fields_push(fields: Seq<JFieldM>, f: JFieldM)
    ensures
        ser_fields(fields.push(f)) == if fields.len() == 0 {
            ser_field(f)
        } else {
            ser_fields(fields) + seq![','] + ser_field(f)
        },
    decreases fields.len(),
{
    let p = fields.push(f);
    if fields.len() == 0 {
        assert(p.len() == 1);
        assert(p[0] == f);
        assert(ser_fields(p) == ser_field(f));
    } else if fields.len() == 1 {
        assert(p.len() == 2);
        assert(p[0] == fields[0]);
        assert(p.drop_first() =~= fields.drop_first().push(f));
        lemma_ser_fields_push(fields.drop_first(), f);
        assert(fields.drop_first().len() == 0);
        assert(ser_fields(p) == ser_field(fields[0]) + seq![','] + ser_field(f));
        assert(ser_fields(fields) == ser_field(fields[0]));
    } else {
        assert(p[0] == fields[0]);
        assert(p.drop_first() =~= fields.drop_first().push(f));
        lemma_ser_fields_push(fields.drop_first(), f);
        assert(ser_fields(p) == ser_field(fields[0]) + seq![','] + (ser_fields(
            fields.drop_first(),
        ) + seq![','] + ser_field(f)));
        assert(ser_field(fields[0]) + seq![','] + (ser_fields(fields.drop_first()) + seq![',']
            + ser_field(f)) =~= (ser_field(fields[0]) + seq![','] + ser_fields(
            fields.drop_first(),
        )) + seq![','] + ser_field(f));
    }
}

/// Write the escaped body of `s` onto `out`.
fn write_escaped(out: &mut String, s: &str)
    ensures
        final(out)@ == old(out)@ + escape(s@),
{
    let n = s.unicode_len();
    let mut i: usize = 0;
    proof {
        assert(escape(s@.take(0)) =~= Seq::<char>::empty());
        assert(old(out)@ + escape(s@.take(0)) =~= old(out)@);
    }
    while i < n
        invariant
            i <= n,
            n == s@.len(),
            out@ == old(out)@ + escape(s@.take(i as int)),
        decreases n - i,
    {
        let c = s.get_char(i);
        if c == '"' {
            crate::text::push_char(out, '\\');
            crate::text::push_char(out, '"');
        } else if c == '\\' {
            crate::text::push_char(out, '\\');
            crate::text::push_char(out, '\\');
        } else if c == '\n' {
            crate::text::push_char(out, '\\');
            crate::text::push_char(out, 'n');
        } else if c == '\r' {
            crate::text::push_char(out, '\\');
            crate::text::push_char(out, 'r');
        } else if c == '\t' {
            crate::text::push_char(out, '\\');
            crate::text::push_char(out, 't');
        } else if (c as u32) < 32 {
            let code = c as u8;
            crate::text::push_char(out, '\\');
            crate::text::push_char(out, 'u');
            crate::text::push_char(out, '0');
            crate::text::push_char(out, '0');
            crate::text::push_char(out, hex_char_pub(code / 16));
            crate::text::push_char(out, hex_char_pub(code % 16));
            proof {
                assert(c as nat == code as nat);
            }
        } else {
            crate::text::push_char(out, c);
        }
        proof {
            lemma_escape_push(s@.take(i as int), c);
            assert(s@.take(i + 1) =~= s@.take(i as int).push(c));
            assert(out@ =~= old(out)@ + escape(s@.take(i + 1)));
        }
        i = i + 1;
    }
    proof {
        assert(s@.take(n as int) =~= s@);
    }
}

/// Render the digit `d` (< 16) as a lowercase hex character.
fn hex_char_pub(d: u8) -> (r: char)
    requires
        d < 16,
    ensures
        r == hex_digit_char(d as nat),
        is_hex_digit(r),
{
    if d < 10 {
        (d + 48) as char
    } else {
        (d + 87) as char
    }
}

/// Write `s` as a quoted, escaped JSON string onto `out`.
fn write_quoted(out: &mut String, s: &str)
    ensures
        final(out)@ == old(out)@ + quote(s@),
{
    crate::text::push_char(out, '"');
    write_escaped(out, s);
    crate::text::push_char(out, '"');
    proof {
        assert(final(out)@ =~= old(out)@ + quote(s@));
    }
}

/// Write the canonical rendering of a scalar value onto `out`.
fn write_val(out: &mut String, v: &JsonVal)
    ensures
        final(out)@ == old(out)@ + ser_val(v@),
{
    match v {
        JsonVal::Null => {
            crate::text::push_str(out, "null");
            proof {
                reveal_strlit("null");
                assert(final(out)@ =~= old(out)@ + ser_val(v@));
            }
        },
        JsonVal::Bool(b) => {
            if *b {
                crate::text::push_str(out, "true");
                proof {
                    reveal_strlit("true");
                    assert(final(out)@ =~= old(out)@ + ser_val(v@));
                }
            } else {
                crate::text::push_str(out, "false");
                proof {
                    reveal_strlit("false");
                    assert(final(out)@ =~= old(out)@ + ser_val(v@));
                }
            }
        },
        JsonVal::Num(s) => {
            crate::text::push_str(out, s.as_str());
        },
        JsonVal::Str(s) => {
            write_quoted(out, s.as_str());
        },
    }
}

/// Write the canonical rendering of `{ fields... }` onto `out`.
pub fn write_obj(out: &mut String, fields: &Vec<JField>)
    ensures
        final(out)@ == old(out)@ + ser_obj(fields_view(fields@)),
{
    crate::text::push_char(out, '{');
    let ghost base = out@;
    let mut i: usize = 0;
    proof {
        assert(ser_fields(fields_view(fields@).take(0)) =~= Seq::<char>::empty());
        assert(base + ser_fields(fields_view(fields@).take(0)) =~= base);
    }
    while i < fields.len()
        invariant
            i <= fields.len(),
            out@ == base + ser_fields(fields_view(fields@).take(i as int)),
        decreases fields.len() - i,
    {
        if i > 0 {
            crate::text::push_char(out, ',');
        }
        let f = &fields[i];
        write_quoted(out, f.name.as_str());
        crate::text::push_char(out, ':');
        write_val(out, &f.value);
        proof {
            let fv = fields_view(fields@);
            lemma_ser_fields_push(fv.take(i as int), fv[i as int]);
            assert(fv.take(i + 1) =~= fv.take(i as int).push(fv[i as int]));
            assert(fv[i as int] == fields@[i as int]@);
            if i == 0 {
                assert(out@ =~= base + ser_fields(fv.take(i + 1)));
            } else {
                assert(out@ =~= base + ser_fields(fv.take(i + 1)));
            }
        }
        i = i + 1;
    }
    crate::text::push_char(out, '}');
    proof {
        let fv = fields_view(fields@);
        assert(fv.take(fields@.len() as int) =~= fv);
        assert(final(out)@ =~= old(out)@ + ser_obj(fv));
    }
}

/// The numeric value of a hex digit in either case, or 16 for other
/// characters.
pub open spec fn hex_val(c: char) -> nat {
    if '0' <= c && c <= '9' {
        ((c as nat) - 48) as nat
    } else if 'a' <= c && c <= 'f' {
        ((c as nat) - 87) as nat
    } else if 'A' <= c && c <= 'F' {
        ((c as nat) - 55) as nat
    } else {
        16
    }
}

/// The character a short escape `\c` stands for, if `c` is one.
pub open spec fn short_escape(c: char) -> Option<char> {
    if c == '"' {
        Some('"')
    } else if c == '\\' {
        Some('\\')
    } else if c == '/' {
        Some('/')
    } else if c == 'b' {
        Some((8 as u8) as char)
    } else if c == 'f' {
        Some((12 as u8) as char)
    } else if c == 'n' {
        Some('\n')
    } else if c == 'r' {
        Some('\r')
    } else if c == 't' {
        Some('\t')
    } else {
        None
    }
}

/// The position of the first non-whitespace character at or after `i`.
pub open spec fn skip_ws(s: Seq<char>, i: int) -> int
    decreases s.len() - i,
    when 0 <= i <= s.len()
{
    if i < s.len() && is_json_ws(s[i]) {
        skip_ws(s, i + 1)
    } else {
        i
    }
}

proof fn lemma_skip_ws_bounds(s: Seq<char>, i: int)
    requires
        0 <= i <= s.len(),
    ensures
        i <= skip_ws(s, i) <= s.len(),
    decreases s.len() - i,
{
    if i < s.len() && is_json_ws(s[i]) {
        lemma_skip_ws_bounds(s, i + 1);
    }
}

/// Parse the body of a JSON string, starting just after the opening quote;
/// returns the decoded characters and the position just after the closing
/// quote.
pub open spec fn sp_str_body(s: Seq<char>, i: int) -> Option<(Seq<char>, int)>
    decreases s.len() - i,
    when 0 <= i <= s.len()
{
    if i >= s.len() {
        None
    } else if s[i] == '"' {
        Some((Seq::empty(), i + 1))
    } else if s[i] == '\\' {
        if i + 1 >= s.len() {
            None
        } else if s[i + 1] == 'u' {
            if i + 6 > s.len() {
                None
            } else if s[i + 2] == '0' && s[i + 3] == '0' && hex_val(s[i + 4]) < 8 && hex_val(
                s[i + 5],
            ) < 16 {
                let c = ((hex_val(s[i + 4]) * 16 + hex_val(s[i + 5])) as u8) as char;
                match sp_str_body(s, i + 6) {
                    Some((t, j)) => Some((seq![c] + t, j)),
                    None => None,
                }
            } else {
                None
            }
        } else {
            match short_escape(s[i + 1]) {
                Some(c) => match sp_str_body(s, i + 2) {
                    Some((t, j)) => Some((seq![c] + t, j)),
                    None => None,
                },
                None => None,
            }
        }
    } else if is_ctrl(s[i]) {
        None
    } else {
        match sp_str_body(s, i + 1) {
            Some((t, j)) => Some((seq![s[i]] + t, j)),
            None => None,
        }
    }
}

/// Parse a quoted JSON string starting at `i`.
pub open spec fn sp_string(s: Seq<char>, i: int) -> Option<(Seq<char>, int)> {
    if 0 <= i < s.len() && s[i] == '"' {
        sp_str_body(s, i + 1)
    } else {
        None
    }
}

/// The end of the number token starting at `i`: the first position at or
/// after `i` without a number character.
pub open spec fn num_end(s: Seq<char>, i: int) -> int
    decreases s.len() - i,
    when 0 <= i <= s.len()
{
    if i < s.len() && is_num_char(s[i]) {
        num_end(s, i + 1)
    } else {
        i
    }
}

proof fn lemma_num_end_bounds(s: Seq<char>, i: int)
    requires
        0 <= i <= s.len(),
    ensures
        i <= num_end(s, i) <= s.len(),
    decreases s.len() - i,
{
    if i < s.len() && is_num_char(s[i]) {
        lemma_num_end_bounds(s, i + 1);
    }
}

/// Parse one scalar JSON value starting exactly at `i` (no leading
/// whitespace).
pub open spec fn sp_val(s: Seq<char>, i: int) -> Option<(JsonValM, int)> {
    if i < 0 || i >= s.len() {
        None
    } else if s[i] == '"' {
        match sp_string(s, i) {
            Some((t, j)) => Some((JsonValM::Str(t), j)),
            None => None,
        }
    } else if s[i] == 'n' {
        if i + 4 <= s.len() && s[i + 1] == 'u' && s[i + 2] == 'l' && s[i + 3] == 'l' {
            Some((JsonValM::Null, i + 4))
        } else {
            None
        }
    } else if s[i] == 't' {
        if i + 4 <= s.len() && s[i + 1] == 'r' && s[i + 2] == 'u' && s[i + 3] == 'e' {
            Some((JsonValM::Bool(true), i + 4))
        } else {
            None
        }
    } else if s[i] == 'f' {
        if i + 5 <= s.len() && s[i + 1] == 'a' && s[i + 2] == 'l' && s[i + 3] == 's' && s[i + 4]
            == 'e' {
            Some((JsonValM::Bool(false), i + 5))
        } else {
            None
        }
    } else if is_num_char(s[i]) {
        Some((JsonValM::Num(s.subrange(i, num_end(s, i))), num_end(s, i)))
    } else {
        None
    }
}

proof fn lemma_sp_str_body_advances(s: Seq<char>, i: int)
    requires
        0 <= i <= s.len(),
    ensures
        match sp_str_body(s, i) {
            Some((t, j)) => i < j <= s.len(),
            None => true,
        },
    decreases s.len() - i,
{
    if i >= s.len() {
    } else if s[i] == '"' {
    } else if s[i] == '\\' {
        if i + 1 >= s.len() {
        } else if s[i + 1] == 'u' {
            if i + 6 <= s.len() {
                lemma_sp_str_body_advances(s, i + 6);
            }
        } else {
            lemma_sp_str_body_advances(s, i + 2);
        }
    } else if is_ctrl(s[i]) {
    } else {
        lemma_sp_str_body_advances(s, i + 1);
    }
}

proof fn lemma_sp_val_advances(s: Seq<char>, i: int)
    requires
        0 <= i <= s.len(),
    ensures
        match sp_val(s, i) {
            Some((v, j)) => i < j <= s.len(),
            None => true,
        },
{
    if i < s.len() {
        if s[i] == '"' {
            lemma_sp_str_body_advances(s, i + 1);
        } else if is_num_char(s[i]) {
            lemma_num_end_bounds(s, i + 1);
        }
    }
}

/// Parse the fields of an object, starting just after `{` or `,`; returns
/// the fields read and the position just after the closing `}`.
pub open spec fn sp_fields(s: Seq<char>, i: int) -> Option<(Seq<JFieldM>, int)>
    decreases s.len() - i,
    when 0 <= i <= s.len()
    via sp_fields_decreases
{
    let i0 = skip_ws(s, i);
    match sp_string(s, i0) {
        None => None,
        Some((name, i1)) => {
            let i2 = skip_ws(s, i1);
            if i2 >= s.len() || s[i2] != ':' {
                None
            } else {
                let i3 = skip_ws(s, i2 + 1);
                match sp_val(s, i3) {
                    None => None,
                    Some((v, i4)) => {
                        let i5 = skip_ws(s, i4);
                        let f = JFieldM { name: name, value: v };
                        if i5 >= s.len() {
                            None
                        } else if s[i5] == ',' {
                            match sp_fields(s, i5 + 1) {
                                Some((fs, j)) => Some((seq![f] + fs, j)),
                                None => None,
                            }
                        } else if s[i5] == '}' {
                            Some((seq![f], i5 + 1))
                        } else {
                            None
                        }
                    },
                }
            }
        },
    }
}

#[via_fn]
proof fn sp_fields_decreases(s: Seq<char>, i: int) {
    lemma_skip_ws_bounds(s, i);
    let i0 = skip_ws(s, i);
    if 0 <= i0 < s.len() && s[i0] == '"' {
        lemma_sp_str_body_advances(s, i0 + 1);
        match sp_str_body(s, i0 + 1) {
            Some((name, i1)) => {
                lemma_skip_ws_bounds(s, i1);
                let i2 = skip_ws(s, i1);
                if i2 < s.len() && s[i2] == ':' {
                    lemma_skip_ws_bounds(s, i2 + 1);
                    let i3 = skip_ws(s, i2 + 1);
                    lemma_sp_val_advances(s, i3);
                    match sp_val(s, i3) {
                        Some((v, i4)) => {
                            lemma_skip_ws_bounds(s, i4);
                        },
                        None => {},
                    }
                }
            },
            None => {},
        }
    }
}

/// Parse a whole object starting at `i` (after optional whitespace);
/// returns its fields and the position just after the closing `}`.
pub open spec fn sp_obj(s: Seq<char>, i: int) -> Option<(Seq<JFieldM>, int)> {
    let i0 = skip_ws(s, i);
    if i0 >= s.len() || s[i0] != '{' {
        None
    } else {
        let i1 = skip_ws(s, i0 + 1);
        if i1 < s.len() && s[i1] == '}' {
            Some((Seq::empty(), i1 + 1))
        } else {
            sp_fields(s, i0 + 1)
        }
    }
}

/// Parse one line as a JSON object with nothing but whitespace after it.
pub open spec fn parse_line_spec(s: Seq<char>) -> Option<Seq<JFieldM>> {
    match sp_obj(s, 0) {
        Some((fs, j)) => if 0 <= j <= s.len() && skip_ws(s, j) == s.len() {
            Some(fs)
        } else {
            None
        },
        None => None,
    }
}

/// Position of the first non-whitespace character at or after `i`.
fn skip_ws_exec(s: &Vec<char>, i: usize) -> (r: usize)
    requires
        i <= s.len(),
    ensures
        r == skip_ws(s@, i as int),
        i <= r <= s.len(),
{
    let mut j = i;
    while j < s.len() && (s[j] == ' ' || s[j] == '\t' || s[j] == '\n' || s[j] == '\r')
        invariant
            i <= j <= s.len(),
            skip_ws(s@, i as int) == skip_ws(s@, j as int),
        decreases s.len() - j,
    {
        proof {
            assert(skip_ws(s@, j as int) == skip_ws(s@, j + 1));
        }
        j = j + 1;
    }
    j
}

/// Whether `c` is a control character.
fn is_ctrl_exec(c: char) -> (r: bool)
    ensures
        r == is_ctrl(c),
{
    (c as u32) < 32
}

/// The numeric value of a hex digit, or 16 for other characters.
fn hex_val_exec(c: char) -> (r: u32)
    ensures
        r as nat == hex_val(c),
{
    let u = c as u32;
    if 48 <= u && u <= 57 {
        u - 48
    } else if 97 <= u && u <= 102 {
        u - 87
    } else if 65 <= u && u <= 70 {
        u - 55
    } else {
        16
    }
}

/// Decode the body of a JSON string, starting just after the opening quote.
fn parse_str_body(s: &Vec<char>, i: usize) -> (r: Option<(Vec<char>, usize)>)
    requires
        i <= s.len(),
    ensures
        match r {
            Some((t, j)) => sp_str_body(s@, i as int) == Some((t@, j as int)) && i < j <= s.len(),
            None => sp_str_body(s@, i as int) is None,
        },
    decreases s.len() - i,
{
    if i >= s.len() {
        proof { assert(sp_str_body(s@, i as int) is None); }
        return None;
    }
    let c = s[i];
    if c == '"' {
        let empty: Vec<char> = Vec::new();
        proof {
            assert(sp_str_body(s@, i as int) == Some((Seq::<char>::empty(), i + 1)));
        }
        return Some((empty, i + 1));
    }
    if c == '\\' {
        if s.len() - i < 2 {
            proof { assert(sp_str_body(s@, i as int) is None); }
            return None;
        }
        let e = s[i + 1];
        if e == 'u' {
            if s.len() - i < 6 {
                proof { assert(sp_str_body(s@, i as int) is None); }
                return None;
            }
            let h3 = hex_val_exec(s[i + 4]);
            let h4 = hex_val_exec(s[i + 5]);
            if s[i + 2] == '0' && s[i + 3] == '0' && h3 < 8 && h4 < 16 {
                let code = (h3 * 16 + h4) as u8;
                let dc = code as char;
                match parse_str_body(s, i + 6) {
                    Some((t, j)) => {
                        let mut t2 = t;
                        t2.insert(0, dc);
                        proof {
                            assert(t2@ =~= seq![dc] + t2@.subrange(1, t2@.len() as int));
                        }
                        Some((t2, j))
                    },
                    None => {
                        proof { assert(sp_str_body(s@, i as int) is None); }
                        None
                    },
                }
            } else {
                proof { assert(sp_str_body(s@, i as int) is None); }
                None
            }
        } else {
            let dec: Option<char> = if e == '"' {
                Some('"')
            } else if e == '\\' {
                Some('\\')
            } else if e == '/' {
                Some('/')
            } else if e == 'b' {
                Some(8u8 as char)
            } else if e == 'f' {
                Some(12u8 as char)
            } else if e == 'n' {
                Some('\n')
            } else if e == 'r' {
                Some('\r')
            } else if e == 't' {
                Some('\t')
            } else {
                None
            };
            proof {
                assert(dec == short_escape(e));
            }
            match dec {
                Some(dc) => {
                    match parse_str_body(s, i + 2) {
                        Some((t, j)) => {
                            let mut t2 = t;
                            t2.insert(0, dc);
                            proof {
                                assert(t2@ =~= seq![dc] + t2@.subrange(1, t2@.len() as int));
                            }
                            Some((t2, j))
                        },
                        None => {
                            proof { assert(sp_str_body(s@, i as int) is None); }
                            None
                        },
                    }
                },
                None => {
                    proof { assert(sp_str_body(s@, i as int) is None); }
                    None
                },
            }
        }
    } else if is_ctrl_exec(c) {
        proof { assert(sp_str_body(s@, i as int) is None); }
        None
    } else {
        match parse_str_body(s, i + 1) {
            Some((t, j)) => {
                let mut t2 = t;
                t2.insert(0, c);
                proof {
                    assert(t2@ =~= seq![c] + t2@.subrange(1, t2@.len() as int));
                }
                Some((t2, j))
            },
            None => {
                proof { assert(sp_str_body(s@, i as int) is None); }
                None
            },
        }
    }
}

/// Parse a quoted JSON string starting at `i`.
fn parse_string(s: &Vec<char>, i: usize) -> (r: Option<(Vec<char>, usize)>)
    requires
        i <= s.len(),
    ensures
        match r {
            Some((t, j)) => sp_string(s@, i as int) == Some((t@, j as int)) && i < j <= s.len(),
            None => sp_string(s@, i as int) is None,
        },
{
    if i < s.len() && s[i] == '"' {
        parse_str_body(s, i + 1)
    } else {
        None
    }
}

/// Parse one scalar JSON value starting exactly at `i`.
fn parse_val(s: &Vec<char>, i: usize) -> (r: Option<(JsonVal, usize)>)
    requires
        i <= s.len(),
    ensures
        match r {
            Some((v, j)) => sp_val(s@, i as int) == Some((v@, j as int)) && i < j <= s.len(),
            None => sp_val(s@, i as int) is None,
        },
{
    if i >= s.len() {
        return None;
    }
    let c = s[i];
    if c == '"' {
        match parse_string(s, i) {
            Some((t, j)) => {
                let txt = crate::text::chars_to_string(&t);
                Some((JsonVal::Str(txt), j))
            },
            None => None,
        }
    } else if c == 'n' {
        if s.len() - i >= 4 && s[i + 1] == 'u' && s[i + 2] == 'l' && s[i + 3] == 'l' {
            Some((JsonVal::Null, i + 4))
        } else {
            None
        }
    } else if c == 't' {
        if s.len() - i >= 4 && s[i + 1] == 'r' && s[i + 2] == 'u' && s[i + 3] == 'e' {
            Some((JsonVal::Bool(true), i + 4))
        } else {
            None
        }
    } else if c == 'f' {
        if s.len() - i >= 5 && s[i + 1] == 'a' && s[i + 2] == 'l' && s[i + 3] == 's' && s[i + 4]
            == 'e' {
            Some((JsonVal::Bool(false), i + 5))
        } else {
            None
        }
    } else if ('0' <= c && c <= '9') || c == '-' || c == '+' || c == '.' || c == 'e' || c == 'E' {
        let mut j = i;
        while j < s.len() && (('0' <= s[j] && s[j] <= '9') || s[j] == '-' || s[j] == '+'
            || s[j] == '.' || s[j] == 'e' || s[j] == 'E')
            invariant
                i <= j <= s.len(),
                num_end(s@, i as int) == num_end(s@, j as int),
            decreases s.len() - j,
        {
            proof {
                assert(is_num_char(s@[j as int]));
                assert(num_end(s@, j as int) == num_end(s@, j + 1));
            }
            j = j + 1;
        }
        proof {
            assert(num_end(s@, j as int) == j as int);
            assert(is_num_char(s@[i as int]));
            lemma_num_end_lower(s@, i as int);
        }
        let mut raw: Vec<char> = Vec::new();
        let mut k = i;
        while k < j
            invariant
                i <= k <= j <= s.len(),
                raw@ == s@.subrange(i as int, k as int),
            decreases j - k,
        {
            raw.push(s[k]);
            proof {
                assert(s@.subrange(i as int, k + 1) =~= s@.subrange(i as int, k as int).push(
                    s@[k as int],
                ));
            }
            k = k + 1;
        }
        let txt = crate::text::chars_to_string(&raw);
        Some((JsonVal::Num(txt), j))
    } else {
        None
    }
}

proof fn lemma_num_end_lower(s: Seq<char>, i: int)
    requires
        0 <= i < s.len(),
        is_num_char(s[i]),
    ensures
        num_end(s, i) > i,
{
    lemma_num_end_bounds(s, i + 1);
}

/// Parse the fields of an object, starting just after `{` or `,`.
fn parse_fields(s: &Vec<char>, i: usize) -> (r: Option<(Vec<JField>, usize)>)
    requires
        i <= s.len(),
    ensures
        match r {
            Some((fs, j)) => sp_fields(s@, i as int) == Some((fields_view(fs@), j as int)) && i
                < j <= s.len(),
            None => sp_fields(s@, i as int) is None,
        },
    decreases s.len() - i,
{
    let i0 = skip_ws_exec(s, i);
    let name = match parse_string(s, i0) {
        Some((t, i1)) => (t, i1),
        None => {
            return None;
        },
    };
    let (name_chars, i1) = name;
    let i2 = skip_ws_exec(s, i1);
    if i2 >= s.len() || s[i2] != ':' {
        return None;
    }
    let i3 = skip_ws_exec(s, i2 + 1);
    let val = match parse_val(s, i3) {
        Some((v, i4)) => (v, i4),
        None => {
            return None;
        },
    };
    let (v, i4) = val;
    let i5 = skip_ws_exec(s, i4);
    let name_str = crate::text::chars_to_string(&name_chars);
    let f = JField { name: name_str, value: v };
    if i5 >= s.len() {
        return None;
    }
    if s[i5] == ',' {
        match parse_fields(s, i5 + 1) {
            Some((fs, j)) => {
                let mut fs2 = fs;
                fs2.insert(0, f);
                proof {
                    assert(fields_view(fs2@) =~= seq![f@] + fields_view(
                        fs2@.subrange(1, fs2@.len() as int),
                    ));
                }
                Some((fs2, j))
            },
            None => None,
        }
    } else if s[i5] == '}' {
        let mut fs2: Vec<JField> = Vec::new();
        fs2.push(f);
        proof {
            assert(fields_view(fs2@) =~= seq![f@]);
        }
        Some((fs2, i5 + 1))
    } else {
        None
    }
}

/// Parse a whole JSON object starting at `i`, after optional whitespace.
fn parse_obj(s: &Vec<char>, i: usize) -> (r: Option<(Vec<JField>, usize)>)
    requires
        i <= s.len(),
    ensures
        match r {
            Some((fs, j)) => sp_obj(s@, i as int) == Some((fields_view(fs@), j as int)) && i < j
                <= s.len(),
            None => sp_obj(s@, i as int) is None,
        },
{
    let i0 = skip_ws_exec(s, i);
    if i0 >= s.len() || s[i0] != '{' {
        return None;
    }
    let i1 = skip_ws_exec(s, i0 + 1);
    if i1 < s.len() && s[i1] == '}' {
        let fs: Vec<JField> = Vec::new();
        proof {
            assert(fields_view(fs@) =~= Seq::<JFieldM>::empty());
        }
        return Some((fs, i1 + 1));
    }
    parse_fields(s, i0 + 1)
}

/// Parse one line as a JSON object. Returns its fields, or `None` when the
/// line is not a single well-formed object.
pub fn parse_line(line: &str) -> (r: Option<Vec<JField>>)
    ensures
        match r {
            Some(fs) => parse_line_spec(line@) == Some(fields_view(fs@)),
            None => parse_line_spec(line@) is None,
        },
{
    let chars = crate::text::str_chars(line);
    match parse_obj(&chars, 0) {
        Some((fs, j)) => {
            let e = skip_ws_exec(&chars, j);
            if e == chars.len() {
                Some(fs)
            } else {
                None
            }
        },
        None => None,
    }
}

/// Reading back the hex digit character gives the digit.
proof fn lemma_hex_digit_char_val(d: nat)
    requires
        d < 16,
    ensures
        hex_val(hex_digit_char(d)) == d,
{
    if d < 10 {
        assert(hex_digit_char(d) == ((d + 48) as u8) as char);
        assert((hex_digit_char(d) as nat) == d + 48);
    } else {
        assert((hex_digit_char(d) as nat) == d + 87);
    }
}

/// Pointwise view of a subrange equality.
proof fn lemma_subrange_index(s: Seq<char>, i: int, w: Seq<char>)
    requires
        0 <= i,
        i + w.len() <= s.len(),
        s.subrange(i, i + w.len()) == w,
    ensures
        forall|k: int| 0 <= k < w.len() ==> s[i + k] == #[trigger] w[k],
{
    assert forall|k: int| 0 <= k < w.len() implies s[i + k] == #[trigger] w[k] by {
        assert(s.subrange(i, i + w.len())[k] == s[i + k]);
    }
}

/// A suffix of a matched window is itself a matched window.
proof fn lemma_subrange_suffix(s: Seq<char>, i: int, w: Seq<char>, a: int)
    requires
        0 <= i,
        0 <= a <= w.len(),
        i + w.len() <= s.len(),
        s.subrange(i, i + w.len()) == w,
    ensures
        s.subrange(i + a, i + w.len()) == w.skip(a),
{
    lemma_subrange_index(s, i, w);
    assert(s.subrange(i + a, i + w.len()) =~= w.skip(a)) by {
        assert forall|k: int| 0 <= k < w.len() - a implies s.subrange(i + a, i + w.len())[k]
            == w.skip(a)[k] by {
            assert(s.subrange(i + a, i + w.len())[k] == s[i + a + k]);
            assert(w.skip(a)[k] == w[a + k]);
            assert(s[i + (a + k)] == w[a + k]);
        }
    }
}

/// The parser reads an escaped string body back to the original characters.
proof fn lemma_sp_str_body_round(s: Seq<char>, i: int, v: Seq<char>)
    requires
        0 <= i,
        i + escape(v).len() + 1 <= s.len(),
        s.subrange(i, i + escape(v).len() + 1) == escape(v) + seq!['"'],
    ensures
        sp_str_body(s, i) == Some((v, i + escape(v).len() + 1)),
    decreases v.len(),
{
    let w = escape(v) + seq!['"'];
    lemma_subrange_index(s, i, w);
    if v.len() == 0 {
        assert(escape(v).len() == 0);
        assert(w =~= seq!['"']);
        assert(w[0] == '"');
        assert(s[i] == '"');
        assert(sp_str_body(s, i) == Some((Seq::<char>::empty(), i + 1)));
        assert(v =~= Seq::<char>::empty());
    } else {
        let c = v[0];
        let tail = v.drop_first();
        let e0 = escape_char(c);
        assert(escape(v) == e0 + escape(tail));
        let l0 = e0.len() as int;
        assert forall|k: int| 0 <= k < l0 implies s[i + k] == #[trigger] e0[k] by {
            assert(w[k] == escape(v)[k]);
            assert(escape(v)[k] == e0[k]);
            assert(s[i + k] == w[k]);
        }
        // The tail window begins after this character's escape.
        lemma_subrange_suffix(s, i, w, l0);
        assert(w.skip(l0) =~= escape(tail) + seq!['"']);
        lemma_sp_str_body_round(s, i + l0, tail);
        let end = i + escape(v).len() + 1;
        assert(i + l0 + escape(tail).len() + 1 == end);
        if c == '"' {
            assert(e0 == seq!['\\', '"']);
            assert(s[i] == '\\' && s[i + 1] == '"');
            assert(short_escape(s[i + 1]) == Some('"'));
            assert(sp_str_body(s, i) == Some((seq![c] + tail, end)));
            assert(seq![c] + tail =~= v);
        } else if c == '\\' {
            assert(e0 == seq!['\\', '\\']);
            assert(s[i] == '\\' && s[i + 1] == '\\');
            assert(short_escape(s[i + 1]) == Some('\\'));
            assert(sp_str_body(s, i) == Some((seq![c] + tail, end)));
            assert(seq![c] + tail =~= v);
        } else if c == '\n' {
            assert(s[i] == '\\' && s[i + 1] == 'n');
            assert(short_escape(s[i + 1]) == Some('\n'));
            assert(sp_str_body(s, i) == Some((seq![c] + tail, end)));
            assert(seq![c] + tail =~= v);
        } else if c == '\r' {
            assert(s[i] == '\\' && s[i + 1] == 'r');
            assert(short_escape(s[i + 1]) == Some('\r'));
            assert(sp_str_body(s, i) == Some((seq![c] + tail, end)));
            assert(seq![c] + tail =~= v);
        } else if c == '\t' {
            assert(s[i] == '\\' && s[i + 1] == 't');
            assert(short_escape(s[i + 1]) == Some('\t'));
            assert(sp_str_body(s, i) == Some((seq![c] + tail, end)));
            assert(seq![c] + tail =~= v);
        } else if is_ctrl(c) {
            let d1 = (c as nat) / 16;
            let d2 = (c as nat) % 16;
            assert(e0 == seq!['\\', 'u', '0', '0', hex_digit_char(d1), hex_digit_char(d2)]);
            assert(s[i] == '\\' && s[i + 1] == 'u' && s[i + 2] == '0' && s[i + 3] == '0');
            assert(s[i + 4] == hex_digit_char(d1) && s[i + 5] == hex_digit_char(d2));
            lemma_hex_digit_char_val(d1);
            lemma_hex_digit_char_val(d2);
            assert(hex_val(s[i + 4]) == d1 && hex_val(s[i + 5]) == d2);
            assert(d1 < 8);
            let dc = ((d1 * 16 + d2) as u8) as char;
            let x = d1 * 16 + d2;
            assert(x == c as nat);
            assert(x < 32);
            assert((x as u8) as nat == x);
            assert(((x as u8) as char) as nat == x);
            assert(dc as nat == c as nat);
            vstd::utf8::char_u32_cast(c, c as u32);
            vstd::utf8::char_u32_cast(dc, dc as u32);
            assert((dc as u32) as nat == dc as nat);
            assert((c as u32) as nat == c as nat);
            assert(dc as u32 == c as u32);
            assert(dc == c);
            assert(sp_str_body(s, i) == Some((seq![c] + tail, end)));
            assert(seq![c] + tail =~= v);
        } else {
            assert(plain_char(c));
            assert(e0 == seq![c]);
            assert(e0[0] == c);
            assert(s[i + 0] == e0[0]);
            assert(s[i] == c);
            assert(sp_str_body(s, i) == Some((seq![c] + tail, end)));
            assert(seq![c] + tail =~= v);
        }
    }
}

/// The parser reads a quoted string back to the original characters.
proof fn lemma_sp_string_round(s: Seq<char>, i: int, v: Seq<char>)
    requires
        0 <= i,
        i + quote(v).len() <= s.len(),
        s.subrange(i, i + quote(v).len()) == quote(v),
    ensures
        sp_string(s, i) == Some((v, i + quote(v).len())),
{
    lemma_subrange_index(s, i, quote(v));
    assert(quote(v)[0] == '"');
    assert(s[i] == '"');
    lemma_subrange_suffix(s, i, quote(v), 1);
    assert(quote(v).skip(1) =~= escape(v) + seq!['"']);
    lemma_sp_str_body_round(s, i + 1, v);
}

/// A run of number characters bounded by a non-number character ends the
/// number token exactly at the boundary.
proof fn lemma_num_end_run(s: Seq<char>, i: int, j: int)
    requires
        0 <= i <= j <= s.len(),
        forall|k: int| i <= k < j ==> is_num_char(#[trigger] s[k]),
        j == s.len() || !is_num_char(s[j]),
    ensures
        num_end(s, i) == j,
    decreases j - i,
{
    if i < j {
        assert(is_num_char(s[i]));
        lemma_num_end_run(s, i + 1, j);
    }
}

/// The parser reads a rendered scalar back to the original value, given
/// that the following character cannot extend a number token.
proof fn lemma_sp_val_round(s: Seq<char>, i: int, v: JsonValM)
    requires
        val_wf(v),
        0 <= i,
        i + ser_val(v).len() < s.len(),
        s.subrange(i, i + ser_val(v).len()) == ser_val(v),
        !is_num_char(s[i + ser_val(v).len()]),
        !is_json_ws(s[i + ser_val(v).len()]),
    ensures
        sp_val(s, i) == Some((v, i + ser_val(v).len())),
{
    let w = ser_val(v);
    lemma_subrange_index(s, i, w);
    match v {
        JsonValM::Null => {
            assert(s[i] == 'n' && s[i + 1] == 'u' && s[i + 2] == 'l' && s[i + 3] == 'l');
        },
        JsonValM::Bool(b) => {
            if b {
                assert(s[i] == 't' && s[i + 1] == 'r' && s[i + 2] == 'u' && s[i + 3] == 'e');
            } else {
                assert(s[i] == 'f' && s[i + 1] == 'a' && s[i + 2] == 'l' && s[i + 3] == 's' && s[i
                    + 4] == 'e');
            }
        },
        JsonValM::Num(raw) => {
            assert(forall|k: int| i <= k < i + raw.len() ==> is_num_char(#[trigger] s[k])) by {
                assert(forall|k: int| 0 <= k < raw.len() ==> s[i + k] == #[trigger] raw[k]);
                assert forall|k: int| i <= k < i + raw.len() implies is_num_char(
                    #[trigger] s[k],
                ) by {
                    assert(s[k] == raw[k - i]);
                    assert(is_num_char(raw[k - i]));
                }
            }
            lemma_num_end_run(s, i, i + raw.len());
            assert(is_num_char(s[i]));
            assert(s.subrange(i, num_end(s, i)) == raw);
        },
        JsonValM::Str(t) => {
            assert(w == quote(t));
            assert(w[0] == '"');
            assert(s[i] == '"');
            lemma_sp_string_round(s, i, t);
        },
    }
}

/// When the character at `i` is not whitespace, no whitespace is skipped.
proof fn lemma_skip_ws_none(s: Seq<char>, i: int)
    requires
        0 <= i <= s.len(),
        i == s.len() || !is_json_ws(s[i]),
    ensures
        skip_ws(s, i) == i,
{
}

/// The first character of a rendered value is never whitespace and never a
/// comma or brace.
proof fn lemma_ser_val_head(v: JsonValM)
    requires
        val_wf(v),
    ensures
        ser_val(v).len() > 0,
        !is_json_ws(ser_val(v)[0]),
{
    match v {
        JsonValM::Null => {},
        JsonValM::Bool(b) => {},
        JsonValM::Num(raw) => {
            assert(is_num_char(raw[0]));
        },
        JsonValM::Str(t) => {
            assert(quote(t)[0] == '"');
        },
    }
}

/// The parser reads a rendered field list followed by `}` back to the
/// original fields.
proof fn lemma_sp_fields_round(s: Seq<char>, i: int, fs: Seq<JFieldM>)
    requires
        fs.len() >= 1,
        fields_wf(fs),
        0 <= i,
        i + ser_fields(fs).len() + 1 <= s.len(),
        s.subrange(i, i + ser_fields(fs).len() + 1) == ser_fields(fs) + seq!['}'],
    ensures
        sp_fields(s, i) == Some((fs, i + ser_fields(fs).len() + 1)),
    decreases fs.len(),
{
    let w = ser_fields(fs) + seq!['}'];
    lemma_subrange_index(s, i, w);
    let f0 = fs[0];
    let name = f0.name;
    let value = f0.value;
    let fw = ser_field(f0);
    assert(fw == quote(name) + seq![':'] + ser_val(value));
    let rest = fs.drop_first();
    // Window decomposition facts.
    let qn = quote(name).len() as int;
    let sv = ser_val(value).len() as int;
    assert(name_wf(name) && val_wf(value));
    if fs.len() == 1 {
        assert(ser_fields(fs) == fw);
        assert(w =~= quote(name) + seq![':'] + ser_val(value) + seq!['}']);
    } else {
        assert(ser_fields(fs) == fw + seq![','] + ser_fields(rest));
        assert(w =~= quote(name) + seq![':'] + ser_val(value) + seq![','] + (ser_fields(rest)
            + seq!['}']));
    }
    assert(forall|k: int| 0 <= k < w.len() ==> s[i + k] == #[trigger] w[k]);
    // The name.
    assert(s.subrange(i, i + qn) =~= quote(name)) by {
        assert forall|k: int| 0 <= k < qn implies s.subrange(i, i + qn)[k] == quote(name)[k] by {
            assert(s[i + k] == w[k]);
            assert(w[k] == quote(name)[k]);
        }
    }
    assert(w[0] == quote(name)[0]);
    assert(quote(name)[0] == '"');
    assert(s[i] == '"');
    lemma_skip_ws_none(s, i);
    lemma_sp_string_round(s, i, name);
    let i1 = i + qn;
    // The colon.
    assert(s[i1] == ':') by {
        assert(w[qn] == ':');
    }
    lemma_skip_ws_none(s, i1);
    // The value.
    let i3 = i1 + 1;
    assert(s.subrange(i3, i3 + sv) =~= ser_val(value)) by {
        assert forall|k: int| 0 <= k < sv implies s.subrange(i3, i3 + sv)[k] == ser_val(value)[k]
            by {
            assert(s[i + (qn + 1 + k)] == w[qn + 1 + k]);
            assert(w[qn + 1 + k] == ser_val(value)[k]);
        }
    }
    lemma_ser_val_head(value);
    assert(!is_json_ws(s[i3])) by {
        assert(w[qn + 1] == ser_val(value)[0]);
    }
    lemma_skip_ws_none(s, i3);
    let i4 = i3 + sv;
    let delim = if fs.len() == 1 { '}' } else { ',' };
    assert(s[i4] == delim) by {
        assert(w[qn + 1 + sv] == delim);
    }
    lemma_sp_val_round(s, i3, value);
    lemma_skip_ws_none(s, i4);
    if fs.len() == 1 {
        assert(sp_fields(s, i) == Some((seq![f0], i4 + 1)));
        assert(seq![f0] =~= fs);
        assert(i4 + 1 == i + ser_fields(fs).len() + 1);
    } else {
        // The remaining fields.
        let i6 = i4 + 1;
        let rw = ser_fields(rest) + seq!['}'];
        assert(s.subrange(i6, i6 + rw.len()) =~= rw) by {
            assert forall|k: int| 0 <= k < rw.len() implies s.subrange(i6, i6 + rw.len())[k]
                == rw[k] by {
                assert(s[i + (qn + 1 + sv + 1 + k)] == w[qn + 1 + sv + 1 + k]);
                assert(w[qn + 1 + sv + 1 + k] == rw[k]);
            }
        }
        assert(fields_wf(rest)) by {
            assert(forall|k: int| 0 <= k < rest.len() ==> rest[k] == #[trigger] fs[k + 1]);
        }
        lemma_sp_fields_round(s, i6, rest);
        assert(sp_fields(s, i) == Some((seq![f0] + rest, i6 + rw.len())));
        assert(seq![f0] + rest =~= fs);
        assert(i6 + rw.len() == i + ser_fields(fs).len() + 1);
    }
}

/// Round trip: parsing the canonical rendering of a field list yields the
/// fields unchanged.
pub proof fn lemma_parse_ser_obj(fs: Seq<JFieldM>)
    requires
        fields_wf(fs),
    ensures
        parse_line_spec(ser_obj(fs)) == Some(fs),
{
    let s = ser_obj(fs);
    assert(s[0] == '{');
    lemma_skip_ws_none(s, 0);
    if fs.len() == 0 {
        assert(ser_fields(fs).len() == 0);
        assert(s.len() == 2);
        assert(s[1] == '}');
        assert(sp_obj(s, 0) == Some((Seq::<JFieldM>::empty(), 2int)));
        lemma_skip_ws_none(s, 2);
        assert(fs =~= Seq::<JFieldM>::empty());
    } else {
        let w = ser_fields(fs) + seq!['}'];
        assert(s.subrange(1, 1 + w.len() as int) =~= w) by {
            assert forall|k: int| 0 <= k < w.len() implies s.subrange(1, 1 + w.len() as int)[k] == w[k]
                by {
                assert(s[1 + k] == (seq!['{'] + w)[1 + k]);
            }
        }
        let f0 = fs[0];
        assert(name_wf(f0.name) && val_wf(f0.value));
        assert(ser_fields(fs)[0] == '"') by {
            if fs.len() == 1 {
                assert(ser_fields(fs) == ser_field(f0));
            } else {
                assert(ser_fields(fs) == ser_field(f0) + seq![','] + ser_fields(fs.drop_first()));
            }
            assert(ser_field(f0)[0] == quote(f0.name)[0]);
            assert(quote(f0.name)[0] == '"');
        }
        assert(s[1] == '"') by {
            assert(s[1] == w[0]);
            assert(w[0] == ser_fields(fs)[0]);
        }
        lemma_skip_ws_none(s, 1);
        lemma_sp_fields_round(s, 1, fs);
        assert(sp_obj(s, 0) == Some((fs, s.len() as int)));
        lemma_skip_ws_none(s, s.len() as int);
    }
}

/// No raw newline occurs in `s`.
pub open spec fn no_newline(s: Seq<char>) -> bool {
    forall|k: int| 0 <= k < s.len() ==> (#[trigger] s[k]) != '\n'
}

proof fn lemma_no_newline_concat(a: Seq<char>, b: Seq<char>)
    requires
        no_newline(a),
        no_newline(b),
    ensures
        no_newline(a + b),
{
    assert forall|k: int| 0 <= k < (a + b).len() implies ((a + b)[k]) != '\n' by {
        if k < a.len() {
            assert((a + b)[k] == a[k]);
        } else {
            assert((a + b)[k] == b[k - a.len()]);
        }
    }
}

proof fn lemma_escape_char_no_newline(c: char)
    ensures
        no_newline(escape_char(c)),
{
    let e = escape_char(c);
    assert forall|k: int| 0 <= k < e.len() implies (e[k]) != '\n' by {
        if c == '"' || c == '\\' || c == '\n' || c == '\r' || c == '\t' {
        } else if is_ctrl(c) {
            if k == 4 {
                assert(e[4] == hex_digit_char((c as nat) / 16));
                assert((hex_digit_char((c as nat) / 16) as nat) >= 48);
            } else if k == 5 {
                assert(e[5] == hex_digit_char((c as nat) % 16));
                assert((hex_digit_char((c as nat) % 16) as nat) >= 48);
            }
        } else {
            assert(e[0] == c);
            assert(!is_ctrl(c));
        }
    }
}

proof fn lemma_escape_no_newline(s: Seq<char>)
    ensures
        no_newline(escape(s)),
    decreases s.len(),
{
    if s.len() == 0 {
    } else {
        lemma_escape_char_no_newline(s[0]);
        lemma_escape_no_newline(s.drop_first());
        lemma_no_newline_concat(escape_char(s[0]), escape(s.drop_first()));
    }
}

proof fn lemma_quote_no_newline(s: Seq<char>)
    ensures
        no_newline(quote(s)),
{
    lemma_escape_no_newline(s);
    assert(no_newline(seq!['"'])) by {
        assert(seq!['"'][0] == '"');
    }
    lemma_no_newline_concat(seq!['"'], escape(s));
    lemma_no_newline_concat(seq!['"'] + escape(s), seq!['"']);
    assert(quote(s) =~= (seq!['"'] + escape(s)) + seq!['"']);
}

proof fn lemma_ser_val_no_newline(v: JsonValM)
    requires
        val_wf(v),
    ensures
        no_newline(ser_val(v)),
{
    match v {
        JsonValM::Null => {
            assert forall|k: int| 0 <= k < ser_val(v).len() implies (ser_val(v)[k]) != '\n' by {}
        },
        JsonValM::Bool(b) => {
            assert forall|k: int| 0 <= k < ser_val(v).len() implies (ser_val(v)[k]) != '\n' by {}
        },
        JsonValM::Num(raw) => {
            assert forall|k: int| 0 <= k < raw.len() implies (raw[k]) != '\n' by {
                assert(is_num_char(raw[k]));
            }
        },
        JsonValM::Str(t) => {
            lemma_quote_no_newline(t);
        },
    }
}

proof fn lemma_ser_field_no_newline(f: JFieldM)
    requires
        name_wf(f.name),
        val_wf(f.value),
    ensures
        no_newline(ser_field(f)),
{
    lemma_quote_no_newline(f.name);
    lemma_ser_val_no_newline(f.value);
    assert(no_newline(seq![':'])) by {
        assert(seq![':'][0] == ':');
    }
    lemma_no_newline_concat(quote(f.name), seq![':']);
    lemma_no_newline_concat(quote(f.name) + seq![':'], ser_val(f.value));
    assert(ser_field(f) =~= (quote(f.name) + seq![':']) + ser_val(f.value));
}

proof fn lemma_ser_fields_no_newline(fields: Seq<JFieldM>)
    requires
        fields_wf(fields),
    ensures
        no_newline(ser_fields(fields)),
    decreases fields.len(),
{
    if fields.len() == 0 {
    } else if fields.len() == 1 {
        assert(name_wf(fields[0].name) && val_wf(fields[0].value));
        lemma_ser_field_no_newline(fields[0]);
    } else {
        assert(name_wf(fields[0].name) && val_wf(fields[0].value));
        lemma_ser_field_no_newline(fields[0]);
        assert(fields_wf(fields.drop_first())) by {
            assert(forall|i: int|
                0 <= i < fields.drop_first().len() ==> fields.drop_first()[i]
                    == #[trigger] fields[i + 1]);
        }
        lemma_ser_fields_no_newline(fields.drop_first());
        assert(no_newline(seq![','])) by {
            assert(seq![','][0] == ',');
        }
        lemma_no_newline_concat(ser_field(fields[0]), seq![',']);
        lemma_no_newline_concat(ser_field(fields[0]) + seq![','], ser_fields(
            fields.drop_first(),
        ));
        assert(ser_fields(fields) =~= (ser_field(fields[0]) + seq![',']) + ser_fields(
            fields.drop_first(),
        ));
    }
}

/// A canonical object line has no raw newline, and opens with a brace, so
/// it is never blank.
pub proof fn lemma_ser_obj_line(fields: Seq<JFieldM>)
    requires
        fields_wf(fields),
    ensures
        no_newline(ser_obj(fields)),
        ser_obj(fields).len() > 0,
        ser_obj(fields)[0] == '{',
        !is_json_ws(ser_obj(fields)[0]),
{
    lemma_ser_fields_no_newline(fields);
    assert(no_newline(seq!['{'])) by {
        assert(seq!['{'][0] == '{');
    }
    assert(no_newline(seq!['}'])) by {
        assert(seq!['}'][0] == '}');
    }
    lemma_no_newline_concat(seq!['{'], ser_fields(fields));
    lemma_no_newline_concat(seq!['{'] + ser_fields(fields), seq!['}']);
    assert(ser_obj(fields) =~= (seq!['{'] + ser_fields(fields)) + seq!['}']);
}

} // verus!

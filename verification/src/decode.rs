//! The offline decode pass: turns a persisted log back into the text that
//! was typed, through the fixed keycode table.
//!
//! Each record line must split into exactly four whitespace-separated
//! fields: timestamp, the `key` keyword, the operation, and the keycode.
//! Only `press` records contribute output; their keycode must be an
//! unsigned 8-bit numeral, and codes the table does not list are dropped
//! silently. Anything else malformed ends the decode with an error.

use vstd::prelude::*;
use crate::capture::record_line;
use crate::keytable::{key_char, lookup_key};
use crate::num::{
    dec_of, lemma_dec_of_digits, lemma_digits_plain, lemma_val_of_dec_of, parse_u8, parse_u8_spec,
    val_of,
};
use crate::text::{
    chars_to_string, fields_from, fields_of, is_space, lemma_fields_from_space,
    lemma_fields_from_word, lemma_lines_from_line, lemma_lines_from_no_newline, lines_from,
    lines_of, split_fields, split_lines, str_to_chars,
};

verus! {

/// Why a decode pass failed.
#[derive(Clone, Copy, Debug, PartialEq, Eq, Structural)]
pub enum DecodeError {
    /// A record did not split into the four expected fields.
    MalformedLine,
    /// A press record's keycode field was not an unsigned 8-bit numeral.
    BadKeycode,
}

/// The operation field that makes a record contribute output.
pub open spec fn press_word() -> Seq<char> {
    seq!['p', 'r', 'e', 's', 's']
}

/// What one record line contributes: a character, nothing, or a fatal
/// parse error.
pub open spec fn decode_line(l: Seq<char>) -> Result<Option<char>, DecodeError> {
    let fs = fields_of(l);
    if fs.len() != 4 {
        Err(DecodeError::MalformedLine)
    } else if fs[2] == press_word() {
        match parse_u8_spec(fs[3]) {
            Option::None => Err(DecodeError::BadKeycode),
            Option::Some(k) => Ok(key_char(k)),
        }
    } else {
        Ok(None)
    }
}

/// A line's contribution as a piece of the output.
pub open spec fn opt_seq(o: Option<char>) -> Seq<char> {
    match o {
        Option::Some(c) => seq![c],
        Option::None => Seq::empty(),
    }
}

/// The decoded output of a sequence of record lines, or the error of the
/// first line that fails.
pub open spec fn decode_lines(ls: Seq<Seq<char>>) -> Result<Seq<char>, DecodeError>
    decreases ls.len(),
{
    if ls.len() == 0 {
        Ok(Seq::empty())
    } else {
        match decode_line(ls[0]) {
            Err(e) => Err(e),
            Ok(o) => match decode_lines(ls.drop_first()) {
                Err(e) => Err(e),
                Ok(rest) => Ok(opt_seq(o) + rest),
            },
        }
    }
}

/// The decoded output of a whole log text.
pub open spec fn decode_spec(content: Seq<char>) -> Result<Seq<char>, DecodeError> {
    decode_lines(lines_of(content))
}

/// Whether a field is the literal `press`.
fn is_press(w: &Vec<char>) -> (r: bool)
    ensures
        r == (w@ == press_word()),
{
    if w.len() != 5 {
        return false;
    }
    if w[0] == 'p' && w[1] == 'r' && w[2] == 'e' && w[3] == 's' && w[4] == 's' {
        assert(w@ =~= press_word());
        true
    } else {
        assert(press_word()[0] == 'p');
        assert(press_word()[1] == 'r');
        assert(press_word()[2] == 'e');
        assert(press_word()[3] == 's');
        assert(press_word()[4] == 's');
        false
    }
}

/// Decodes a whole log text, batch-style: on success the output collects,
/// in record order, the table character of every `press` record; the first
/// malformed record or unparsable keycode fails the pass instead.
pub fn decode(contents: &str) -> (r: Result<String, DecodeError>)
    ensures
        match r {
            Ok(out) => decode_spec(contents@) == Ok::<Seq<char>, DecodeError>(out@),
            Err(e) => decode_spec(contents@) == Err::<Seq<char>, DecodeError>(e),
        },
{
    let cs = str_to_chars(contents);
    let lines = split_lines(&cs);
    let ghost ls = lines.deep_view();
    let mut out: Vec<char> = Vec::new();
    let mut i: usize = 0;
    assert(ls.skip(0) =~= ls);
    while i < lines.len()
        invariant
            i <= ls.len(),
            ls == lines.deep_view(),
            ls == lines_of(contents@),
            decode_lines(ls) == (match decode_lines(ls.skip(i as int)) {
                Ok(rest) => Ok::<Seq<char>, DecodeError>(out@ + rest),
                Err(e) => Err::<Seq<char>, DecodeError>(e),
            }),
        decreases ls.len() - i,
    {
        let ghost pre = ls.skip(i as int);
        assert(pre[0] == ls[i as int]);
        assert(pre.drop_first() =~= ls.skip(i + 1));
        assert(lines@[i as int].deep_view() =~= lines@[i as int]@);
        let fields = split_fields(&lines[i]);
        let ghost fs = fields_of(ls[i as int]);
        assert(fields.deep_view() == fs);
        if fields.len() != 4 {
            assert(decode_line(ls[i as int]) == Err::<Option<char>, DecodeError>(
                DecodeError::MalformedLine,
            ));
            return Err(DecodeError::MalformedLine);
        }
        assert(fields@[2].deep_view() =~= fields@[2]@);
        assert(fields@[3].deep_view() =~= fields@[3]@);
        if is_press(&fields[2]) {
            match parse_u8(&fields[3]) {
                Option::None => {
                    assert(decode_line(ls[i as int]) == Err::<Option<char>, DecodeError>(
                        DecodeError::BadKeycode,
                    ));
                    return Err(DecodeError::BadKeycode);
                },
                Option::Some(k) => {
                    let ghost o: Option<char> = key_char(k);
                    assert(decode_line(ls[i as int]) == Ok::<Option<char>, DecodeError>(o));
                    match lookup_key(k) {
                        Option::Some(c) => {
                            let ghost old_out = out@;
                            out.push(c);
                            assert(old_out + (opt_seq(o) + decode_lines(ls.skip(i + 1))->Ok_0)
                                =~= out@ + decode_lines(ls.skip(i + 1))->Ok_0);
                        },
                        Option::None => {
                            assert(out@ + (opt_seq(o) + decode_lines(ls.skip(i + 1))->Ok_0)
                                =~= out@ + decode_lines(ls.skip(i + 1))->Ok_0);
                        },
                    }
                },
            }
        } else {
            let ghost o: Option<char> = Option::None;
            assert(decode_line(ls[i as int]) == Ok::<Option<char>, DecodeError>(o));
            assert(out@ + (opt_seq(o) + decode_lines(ls.skip(i + 1))->Ok_0) =~= out@
                + decode_lines(ls.skip(i + 1))->Ok_0);
        }
        i += 1;
    }
    assert(ls.skip(i as int) =~= Seq::<Seq<char>>::empty());
    assert(out@ + Seq::<char>::empty() =~= out@);
    Ok(chars_to_string(&out))
}

/// An empty log decodes to the empty output.
pub proof fn lemma_decode_empty()
    ensures
        decode_spec(Seq::<char>::empty()) == Ok::<Seq<char>, DecodeError>(Seq::<char>::empty()),
{
    assert(lines_of(Seq::<char>::empty()) == Seq::<Seq<char>>::empty());
}

/// A log's first failing record decides the decode: its error becomes the
/// decode's own error. A bad record is never skipped over.
pub proof fn lemma_first_error_is_fatal(ls: Seq<Seq<char>>, i: int)
    requires
        0 <= i < ls.len(),
        decode_line(ls[i]) is Err,
        forall|j: int| 0 <= j < i ==> #[trigger] decode_line(ls[j]) is Ok,
    ensures
        decode_lines(ls) == Err::<Seq<char>, DecodeError>(decode_line(ls[i])->Err_0),
    decreases i,
{
    if i > 0 {
        assert(decode_line(ls[0]) is Ok);
        assert(ls.drop_first()[i - 1] == ls[i]);
        assert forall|j: int| 0 <= j < i - 1 implies #[trigger] decode_line(
            ls.drop_first()[j],
        ) is Ok by {
            assert(ls.drop_first()[j] == ls[j + 1]);
        }
        lemma_first_error_is_fatal(ls.drop_first(), i - 1);
    }
}

/// Round trip: a record built from a timestamp, an operation word and a
/// keycode decodes back to exactly the table character of that keycode
/// when the operation is `press`, and to nothing for any other operation —
/// with or without the terminating newline the sink writes.
pub proof fn lemma_record_round_trip(ts: u64, op: Seq<char>, code: u8)
    requires
        op.len() > 0,
        forall|i: int| 0 <= i < op.len() ==> !is_space(#[trigger] op[i]) && op[i] != '\n',
    ensures
        decode_spec(record_line(ts as nat, op, code as nat)) == Ok::<Seq<char>, DecodeError>(
            if op == press_word() {
                opt_seq(key_char(code))
            } else {
                Seq::<char>::empty()
            },
        ),
        decode_spec(record_line(ts as nat, op, code as nat).push('\n')) == Ok::<
            Seq<char>,
            DecodeError,
        >(
            if op == press_word() {
                opt_seq(key_char(code))
            } else {
                Seq::<char>::empty()
            },
        ),
{
    let d = dec_of(ts as nat);
    let c = dec_of(code as nat);
    let key = seq!['k', 'e', 'y'];
    let line = record_line(ts as nat, op, code as nat);
    lemma_dec_of_digits(ts as nat);
    lemma_dec_of_digits(code as nat);
    lemma_digits_plain(d);
    lemma_digits_plain(c);
    assert(key[0] == 'k' && key[1] == 'e' && key[2] == 'y');
    assert(forall|i: int| 0 <= i < key.len() ==> !is_space(#[trigger] key[i]) && key[i] != '\n');
    assert(line =~= d + (seq![' '] + (key + (seq![' '] + (op + (seq![' '] + c))))));
    assert(forall|i: int| 0 <= i < line.len() ==> #[trigger] line[i] != '\n');

    // The line splits into exactly the four fields it was built from.
    let tail0 = seq![' '] + (key + (seq![' '] + (op + (seq![' '] + c))));
    lemma_fields_from_word(d, tail0, Seq::empty());
    assert(Seq::<char>::empty() + d =~= d);
    lemma_fields_from_space(key + (seq![' '] + (op + (seq![' '] + c))), d);
    lemma_fields_from_word(key, seq![' '] + (op + (seq![' '] + c)), Seq::empty());
    assert(Seq::<char>::empty() + key =~= key);
    lemma_fields_from_space(op + (seq![' '] + c), key);
    lemma_fields_from_word(op, seq![' '] + c, Seq::empty());
    assert(Seq::<char>::empty() + op =~= op);
    lemma_fields_from_space(c, op);
    lemma_fields_from_word(c, Seq::empty(), Seq::empty());
    assert(Seq::<char>::empty() + c =~= c);
    assert(c + Seq::<char>::empty() =~= c);
    assert(fields_from(Seq::<char>::empty(), c) == seq![c]);
    let fs = fields_of(line);
    assert(fs =~= seq![d, key, op, c]);
    assert(fs.len() == 4 && fs[2] == op && fs[3] == c);

    // The keycode field parses back to the keycode.
    lemma_val_of_dec_of(code as nat);
    assert(val_of(c) == code as nat);
    assert(parse_u8_spec(c) == Some(code));
    let o: Result<Option<char>, DecodeError> = if op == press_word() {
        Ok(key_char(code))
    } else {
        Ok(None)
    };
    assert(decode_line(line) == o);

    // The whole text is that one record, newline or not.
    lemma_lines_from_no_newline(line, Seq::<char>::empty());
    assert(Seq::<char>::empty() + line =~= line);
    assert(line.len() > 0);
    assert(lines_of(line) == seq![line]);
    assert(line.push('\n') =~= line + (seq!['\n'] + Seq::<char>::empty()));
    lemma_lines_from_line(line, Seq::<char>::empty(), Seq::<char>::empty());
    assert(seq![Seq::<char>::empty() + line] + lines_from(
        Seq::<char>::empty(),
        Seq::<char>::empty(),
    ) =~= seq![line]);
    assert(lines_of(line.push('\n')) == seq![line]);

    // One record decodes to its own contribution.
    assert(seq![line].drop_first() =~= Seq::<Seq<char>>::empty());
    assert(decode_lines(seq![line].drop_first()) == Ok::<Seq<char>, DecodeError>(
        Seq::<char>::empty(),
    ));
    if op == press_word() {
        assert(opt_seq(key_char(code)) + Seq::<char>::empty() =~= opt_seq(key_char(code)));
    } else {
        assert(opt_seq(None) + Seq::<char>::empty() =~= Seq::<char>::empty());
    }
}

} // verus!

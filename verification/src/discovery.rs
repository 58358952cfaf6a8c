//! Device discovery: picking the device identifiers out of a textual
//! device listing.
//!
//! A listing line is a candidate when it contains the wanted device name,
//! case-insensitively. On every candidate line that carries an `id=`
//! marker, the digits right after the last marker are the identifier; a
//! marker with no digits after it, or digits that do not fit an unsigned
//! 8-bit integer, is a fatal startup error.

use vstd::prelude::*;
use crate::num::{parse_u8, parse_u8_spec};
use crate::text::{
    contains_chars, contains_seq, digit_prefix, id_marker, is_digit, last_match,
    lemma_last_match_in_range, lines_of, read_digits, rfind_id, split_lines, str_to_chars,
};

verus! {

/// Why discovery failed.
#[derive(Clone, Copy, Debug, PartialEq, Eq, Structural)]
pub enum DiscoveryError {
    /// The digits after an `id=` marker were missing or did not fit an
    /// unsigned 8-bit integer.
    InvalidId,
}

/// The identifiers parsed from candidate lines, in line order: on every
/// line carrying an `id=` marker, the digit run after the last marker read
/// as a `u8`; lines without a marker contribute nothing; a digit run that
/// does not parse fails the whole pass.
pub open spec fn parse_ids_spec(ls: Seq<Seq<char>>) -> Result<Seq<u8>, DiscoveryError>
    decreases ls.len(),
{
    if ls.len() == 0 {
        Ok(Seq::empty())
    } else if last_match(ls[0], id_marker()) < 0 {
        parse_ids_spec(ls.drop_first())
    } else {
        let p: int = last_match(ls[0], id_marker());
        match parse_u8_spec(digit_prefix(ls[0].skip(p + 3))) {
            Option::None => Err(DiscoveryError::InvalidId),
            Option::Some(k) => match parse_ids_spec(ls.drop_first()) {
                Err(e) => Err(e),
                Ok(rest) => Ok(seq![k] + rest),
            },
        }
    }
}

/// Parses the device identifiers out of the given candidate lines.
pub fn parse_device_numbers(lines: &Vec<Vec<char>>) -> (r: Result<Vec<u8>, DiscoveryError>)
    ensures
        match r {
            Ok(v) => parse_ids_spec(lines.deep_view()) == Ok::<Seq<u8>, DiscoveryError>(v@),
            Err(e) => parse_ids_spec(lines.deep_view()) == Err::<Seq<u8>, DiscoveryError>(e),
        },
{
    let ghost ls = lines.deep_view();
    let mut out: Vec<u8> = Vec::new();
    let mut i: usize = 0;
    assert(ls.skip(0) =~= ls);
    while i < lines.len()
        invariant
            i <= ls.len(),
            ls == lines.deep_view(),
            parse_ids_spec(ls) == (match parse_ids_spec(ls.skip(i as int)) {
                Ok(rest) => Ok::<Seq<u8>, DiscoveryError>(out@ + rest),
                Err(e) => Err::<Seq<u8>, DiscoveryError>(e),
            }),
        decreases ls.len() - i,
    {
        let ghost pre = ls.skip(i as int);
        assert(pre[0] == ls[i as int]);
        assert(pre.drop_first() =~= ls.skip(i + 1));
        assert(lines@[i as int].deep_view() =~= lines@[i as int]@);
        match rfind_id(&lines[i]) {
            Option::None => {},
            Option::Some(p) => {
                let line_len: usize = lines[i].len();
                assert(p + 3 <= line_len);
                let ds = read_digits(&lines[i], p + 3);
                match parse_u8(&ds) {
                    Option::None => {
                        return Err(DiscoveryError::InvalidId);
                    },
                    Option::Some(k) => {
                        let ghost old_out = out@;
                        out.push(k);
                        assert(old_out + (seq![k] + parse_ids_spec(ls.skip(i + 1))->Ok_0) =~= out@
                            + parse_ids_spec(ls.skip(i + 1))->Ok_0);
                    },
                }
            },
        }
        i += 1;
    }
    assert(ls.skip(i as int) =~= Seq::<Seq<char>>::empty());
    assert(out@ + Seq::<u8>::empty() =~= out@);
    Ok(out)
}

/// How many of the given lines carry an `id=` marker.
pub open spec fn marker_count(ls: Seq<Seq<char>>) -> nat
    decreases ls.len(),
{
    if ls.len() == 0 {
        0
    } else if last_match(ls[0], id_marker()) >= 0 {
        1 + marker_count(ls.drop_first())
    } else {
        marker_count(ls.drop_first())
    }
}

/// Discovery yields exactly one identifier per marker-carrying candidate
/// line: when every candidate parses, the result holds as many identifiers
/// as there are candidate lines with an `id=` marker.
pub proof fn lemma_one_id_per_marker_line(ls: Seq<Seq<char>>)
    requires
        parse_ids_spec(ls) is Ok,
    ensures
        (parse_ids_spec(ls)->Ok_0).len() == marker_count(ls),
    decreases ls.len(),
{
    if ls.len() == 0 {
        assert(parse_ids_spec(ls)->Ok_0 =~= Seq::<u8>::empty());
    } else {
        lemma_one_id_per_marker_line(ls.drop_first());
    }
}

/// A marker followed immediately by anything but a digit — in particular a
/// marker with nothing at all after it — fails discovery fatally: an
/// identifier was expected there and none can be parsed.
pub proof fn lemma_marker_without_digits_is_fatal(ls: Seq<Seq<char>>)
    requires
        ls.len() > 0,
        last_match(ls[0], id_marker()) >= 0,
        last_match(ls[0], id_marker()) + 3 == ls[0].len() || !is_digit(
            ls[0][last_match(ls[0], id_marker()) + 3],
        ),
    ensures
        parse_ids_spec(ls) == Err::<Seq<u8>, DiscoveryError>(DiscoveryError::InvalidId),
{
    let p: int = last_match(ls[0], id_marker());
    lemma_last_match_in_range(ls[0], id_marker());
    assert(id_marker().len() == 3);
    if p + 3 == ls[0].len() {
        assert(ls[0].skip(p + 3) =~= Seq::<char>::empty());
    } else {
        assert(ls[0].skip(p + 3)[0] == ls[0][p + 3]);
    }
    assert(digit_prefix(ls[0].skip(p + 3)) == Seq::<char>::empty());
    assert(parse_u8_spec(Seq::<char>::empty()) == Option::<u8>::None);
}

/// The candidate lines: those that contain the device name.
pub open spec fn matching_lines(ls: Seq<Seq<char>>, name: Seq<char>) -> Seq<Seq<char>>
    decreases ls.len(),
{
    if ls.len() == 0 {
        Seq::empty()
    } else if contains_seq(ls[0], name) {
        seq![ls[0]] + matching_lines(ls.drop_first(), name)
    } else {
        matching_lines(ls.drop_first(), name)
    }
}

/// Keeps the lines that contain the device name.
fn filter_matching(lines: &Vec<Vec<char>>, name: &Vec<char>) -> (r: Vec<Vec<char>>)
    ensures
        r.deep_view() == matching_lines(lines.deep_view(), name@),
{
    let ghost ls = lines.deep_view();
    let mut out: Vec<Vec<char>> = Vec::new();
    let mut i: usize = 0;
    assert(ls.skip(0) =~= ls);
    assert(out.deep_view() + matching_lines(ls, name@) =~~= matching_lines(ls, name@));
    while i < lines.len()
        invariant
            i <= ls.len(),
            ls == lines.deep_view(),
            matching_lines(ls, name@) == out.deep_view() + matching_lines(
                ls.skip(i as int),
                name@,
            ),
        decreases ls.len() - i,
    {
        let ghost pre = ls.skip(i as int);
        assert(pre[0] == ls[i as int]);
        assert(pre.drop_first() =~= ls.skip(i + 1));
        assert(lines@[i as int].deep_view() =~= lines@[i as int]@);
        if contains_chars(&lines[i], name) {
            let ghost old_out = out.deep_view();
            out.push(lines[i].clone());
            assert(out.deep_view() =~~= old_out.push(ls[i as int]));
            assert(old_out + (seq![ls[i as int]] + matching_lines(ls.skip(i + 1), name@))
                =~~= out.deep_view() + matching_lines(ls.skip(i + 1), name@));
        }
        i += 1;
    }
    assert(ls.skip(i as int) =~= Seq::<Seq<char>>::empty());
    assert(out.deep_view() + Seq::<Seq<char>>::empty() =~~= out.deep_view());
    out
}

/// The result the lowercase pass yields for a given text; fixed by the
/// text alone.
pub uninterp spec fn lower_of(s: Seq<char>) -> Seq<char>;

/// Relies on `str::to_lowercase`: the lowercase equivalent of the text,
/// depending on its characters alone.
#[verifier::external_body]
fn lowercase(s: &str) -> (r: String)
    ensures
        r@ == lower_of(s@),
{
    s.to_lowercase()
}

/// The device identifiers a listing yields for a device name: both are
/// lowered, the listing's lines are filtered to those containing the
/// lowered name, and the identifiers are parsed from what remains.
pub open spec fn devices_spec(name: Seq<char>, listing: Seq<char>) -> Result<
    Seq<u8>,
    DiscoveryError,
> {
    parse_ids_spec(matching_lines(lines_of(lower_of(listing)), lower_of(name)))
}

/// Finds, in a device listing, the identifiers of every device whose line
/// contains the given name, case-insensitively, in listing order.
pub fn get_device_numbers(device_name: &str, listing: &str) -> (r: Result<
    Vec<u8>,
    DiscoveryError,
>)
    ensures
        match r {
            Ok(v) => devices_spec(device_name@, listing@) == Ok::<Seq<u8>, DiscoveryError>(v@),
            Err(e) => devices_spec(device_name@, listing@) == Err::<Seq<u8>, DiscoveryError>(e),
        },
{
    let name_lc = lowercase(device_name);
    let listing_lc = lowercase(listing);
    let name_cs = str_to_chars(name_lc.as_str());
    let listing_cs = str_to_chars(listing_lc.as_str());
    let lines = split_lines(&listing_cs);
    let matched = filter_matching(&lines, &name_cs);
    parse_device_numbers(&matched)
}

} // verus!

//! Plain-text building blocks: character classes, conversion between `str`
//! and character vectors, splitting into lines and whitespace-separated
//! fields, and substring search.
//!
//! Every record the pipeline handles is a line of text, so the decoder and
//! the device-discovery parser are both specified over these functions.

use vstd::prelude::*;
use vstd::string::StrSliceExecFns;

verus! {

/// Whitespace that separates fields inside one record line. A line never
/// carries `'\n'`, which is the record separator itself.
pub open spec fn is_space(c: char) -> bool {
    c == ' ' || c == '\t' || c == '\r'
}

/// An ASCII decimal digit.
pub open spec fn is_digit(c: char) -> bool {
    48 <= c as u32 <= 57
}

/// The numeric value of an ASCII decimal digit.
pub open spec fn digit_val(c: char) -> nat
    recommends
        is_digit(c),
{
    (c as u32 - 48) as nat
}

/// The characters of a `str`, as a vector.
pub fn str_to_chars(s: &str) -> (r: Vec<char>)
    ensures
        r@ == s@,
{
    let n: usize = s.unicode_len();
    let mut r: Vec<char> = Vec::new();
    let mut i: usize = 0;
    while i < n
        invariant
            i <= n,
            n == s@.len(),
            r@ == s@.take(i as int),
        decreases n - i,
    {
        r.push(s.get_char(i));
        assert(r@ =~= s@.take(i + 1));
        i += 1;
    }
    assert(r@ =~= s@);
    r
}

/// Appends one character to a `String`.
///
/// Relies on `String::push`: it appends the given `char` to the end of the
/// string.
#[verifier::external_body]
fn push_char(s: &mut String, c: char)
    ensures
        final(s)@ == old(s)@.push(c),
{
    s.push(c)
}

/// A `String` holding exactly the given characters.
pub fn chars_to_string(v: &Vec<char>) -> (r: String)
    ensures
        r@ == v@,
{
    let mut r = String::new();
    let mut i: usize = 0;
    while i < v.len()
        invariant
            i <= v@.len(),
            r@ == v@.take(i as int),
        decreases v@.len() - i,
    {
        push_char(&mut r, v[i]);
        assert(r@ =~= v@.take(i + 1));
        i += 1;
    }
    assert(r@ =~= v@);
    r
}

/// The lines of a text, with `cur` the partial line read so far. A `'\n'`
/// closes the current line (so a terminating newline does not open an empty
/// final line); a non-empty partial line at the end of the text still counts.
pub open spec fn lines_from(s: Seq<char>, cur: Seq<char>) -> Seq<Seq<char>>
    decreases s.len(),
{
    if s.len() == 0 {
        if cur.len() == 0 {
            Seq::empty()
        } else {
            seq![cur]
        }
    } else if s[0] == '\n' {
        seq![cur] + lines_from(s.drop_first(), Seq::empty())
    } else {
        lines_from(s.drop_first(), cur.push(s[0]))
    }
}

/// The lines of a text: segments between `'\n'` separators, without a
/// trailing empty segment when the text ends in `'\n'`.
pub open spec fn lines_of(s: Seq<char>) -> Seq<Seq<char>> {
    lines_from(s, Seq::empty())
}

/// The whitespace-separated fields of a line, with `cur` the partial field
/// read so far. Runs of whitespace separate fields; leading and trailing
/// whitespace yield no empty fields.
pub open spec fn fields_from(s: Seq<char>, cur: Seq<char>) -> Seq<Seq<char>>
    decreases s.len(),
{
    if s.len() == 0 {
        if cur.len() == 0 {
            Seq::empty()
        } else {
            seq![cur]
        }
    } else if is_space(s[0]) {
        if cur.len() == 0 {
            fields_from(s.drop_first(), Seq::empty())
        } else {
            seq![cur] + fields_from(s.drop_first(), Seq::empty())
        }
    } else {
        fields_from(s.drop_first(), cur.push(s[0]))
    }
}

/// The whitespace-separated fields of a line.
pub open spec fn fields_of(s: Seq<char>) -> Seq<Seq<char>> {
    fields_from(s, Seq::empty())
}

/// Splits a text into its lines.
pub fn split_lines(s: &Vec<char>) -> (r: Vec<Vec<char>>)
    ensures
        r.deep_view() == lines_of(s@),
{
    let mut done: Vec<Vec<char>> = Vec::new();
    let mut cur: Vec<char> = Vec::new();
    let mut i: usize = 0;
    assert(s@.skip(0) =~= s@);
    assert(done.deep_view() + lines_from(s@, cur@) =~~= lines_from(s@, cur@));
    while i < s.len()
        invariant
            i <= s@.len(),
            lines_of(s@) == done.deep_view() + lines_from(s@.skip(i as int), cur@),
        decreases s@.len() - i,
    {
        let ghost pre = s@.skip(i as int);
        assert(pre[0] == s@[i as int]);
        assert(pre.drop_first() =~= s@.skip(i + 1));
        let ghost old_done = done.deep_view();
        let ghost old_cur = cur@;
        if s[i] == '\n' {
            done.push(cur);
            cur = Vec::new();
            assert(done.deep_view() =~~= old_done.push(old_cur));
            assert(old_done + (seq![old_cur] + lines_from(s@.skip(i + 1), cur@)) =~~= done.deep_view()
                + lines_from(s@.skip(i + 1), cur@));
        } else {
            cur.push(s[i]);
        }
        i += 1;
    }
    assert(s@.skip(i as int) =~= Seq::<char>::empty());
    if cur.len() > 0 {
        let ghost old_done = done.deep_view();
        let ghost old_cur = cur@;
        done.push(cur);
        assert(done.deep_view() =~~= old_done.push(old_cur));
        assert(old_done + seq![old_cur] =~~= done.deep_view());
    } else {
        assert(done.deep_view() + lines_from(Seq::<char>::empty(), cur@) =~~= done.deep_view());
    }
    done
}

/// Splits a line into its whitespace-separated fields.
pub fn split_fields(s: &Vec<char>) -> (r: Vec<Vec<char>>)
    ensures
        r.deep_view() == fields_of(s@),
{
    let mut done: Vec<Vec<char>> = Vec::new();
    let mut cur: Vec<char> = Vec::new();
    let mut i: usize = 0;
    assert(s@.skip(0) =~= s@);
    assert(done.deep_view() + fields_from(s@, cur@) =~~= fields_from(s@, cur@));
    while i < s.len()
        invariant
            i <= s@.len(),
            fields_of(s@) == done.deep_view() + fields_from(s@.skip(i as int), cur@),
        decreases s@.len() - i,
    {
        let ghost pre = s@.skip(i as int);
        assert(pre[0] == s@[i as int]);
        assert(pre.drop_first() =~= s@.skip(i + 1));
        let ghost old_done = done.deep_view();
        let ghost old_cur = cur@;
        let c = s[i];
        if c == ' ' || c == '\t' || c == '\r' {
            if cur.len() > 0 {
                done.push(cur);
                cur = Vec::new();
                assert(done.deep_view() =~~= old_done.push(old_cur));
                assert(old_done + (seq![old_cur] + fields_from(s@.skip(i + 1), cur@))
                    =~~= done.deep_view() + fields_from(s@.skip(i + 1), cur@));
            } else {
                assert(cur@ =~= Seq::<char>::empty());
            }
        } else {
            cur.push(c);
        }
        i += 1;
    }
    assert(s@.skip(i as int) =~= Seq::<char>::empty());
    if cur.len() > 0 {
        let ghost old_done = done.deep_view();
        let ghost old_cur = cur@;
        done.push(cur);
        assert(done.deep_view() =~~= old_done.push(old_cur));
        assert(old_done + seq![old_cur] =~~= done.deep_view());
    } else {
        assert(done.deep_view() + fields_from(Seq::<char>::empty(), cur@) =~~= done.deep_view());
    }
    done
}

/// A run of non-whitespace characters extends the current field.
pub proof fn lemma_fields_from_word(w: Seq<char>, rest: Seq<char>, cur: Seq<char>)
    requires
        forall|i: int| 0 <= i < w.len() ==> !is_space(#[trigger] w[i]),
    ensures
        fields_from(w + rest, cur) == fields_from(rest, cur + w),
    decreases w.len(),
{
    if w.len() == 0 {
        assert(w + rest =~= rest);
        assert(cur + w =~= cur);
    } else {
        assert((w + rest)[0] == w[0]);
        assert(!is_space(w[0]));
        assert((w + rest).drop_first() =~= w.drop_first() + rest);
        lemma_fields_from_word(w.drop_first(), rest, cur.push(w[0]));
        assert(cur.push(w[0]) + w.drop_first() =~= cur + w);
    }
}

/// Whitespace after a non-empty current field closes that field.
pub proof fn lemma_fields_from_space(rest: Seq<char>, cur: Seq<char>)
    requires
        cur.len() > 0,
    ensures
        fields_from(seq![' '] + rest, cur) == seq![cur] + fields_from(rest, Seq::empty()),
{
    assert((seq![' '] + rest)[0] == ' ');
    assert((seq![' '] + rest).drop_first() =~= rest);
}

/// A text without newlines is at most one line.
pub proof fn lemma_lines_from_no_newline(l: Seq<char>, cur: Seq<char>)
    requires
        forall|i: int| 0 <= i < l.len() ==> #[trigger] l[i] != '\n',
    ensures
        lines_from(l, cur) == if cur.len() + l.len() == 0 {
            Seq::<Seq<char>>::empty()
        } else {
            seq![cur + l]
        },
    decreases l.len(),
{
    if l.len() == 0 {
        assert(cur + l =~= cur);
    } else {
        assert(l[0] != '\n');
        lemma_lines_from_no_newline(l.drop_first(), cur.push(l[0]));
        assert(cur.push(l[0]) + l.drop_first() =~= cur + l);
    }
}

/// A newline closes the current line.
pub proof fn lemma_lines_from_newline(rest: Seq<char>, cur: Seq<char>)
    ensures
        lines_from(seq!['\n'] + rest, cur) == seq![cur] + lines_from(rest, Seq::empty()),
{
    assert((seq!['\n'] + rest)[0] == '\n');
    assert((seq!['\n'] + rest).drop_first() =~= rest);
}

/// A newline-free text followed by a newline yields one closed line.
pub proof fn lemma_lines_from_line(t: Seq<char>, rest: Seq<char>, cur: Seq<char>)
    requires
        forall|i: int| 0 <= i < t.len() ==> #[trigger] t[i] != '\n',
    ensures
        lines_from(t + (seq!['\n'] + rest), cur) == seq![cur + t] + lines_from(rest, Seq::empty()),
    decreases t.len(),
{
    if t.len() == 0 {
        assert(t + (seq!['\n'] + rest) =~= seq!['\n'] + rest);
        lemma_lines_from_newline(rest, cur);
        assert(cur + t =~= cur);
    } else {
        assert((t + (seq!['\n'] + rest))[0] == t[0]);
        assert(t[0] != '\n');
        assert((t + (seq!['\n'] + rest)).drop_first() =~= t.drop_first() + (seq!['\n'] + rest));
        lemma_lines_from_line(t.drop_first(), rest, cur.push(t[0]));
        assert(cur.push(t[0]) + t.drop_first() =~= cur + t);
    }
}

/// The needle `n` occurs in `h` at position `i`.
pub open spec fn matches_at(h: Seq<char>, n: Seq<char>, i: int) -> bool {
    0 <= i && i + n.len() <= h.len() && h.subrange(i, i + n.len()) == n
}

/// The needle `n` occurs somewhere in `h`.
pub open spec fn contains_seq(h: Seq<char>, n: Seq<char>) -> bool {
    exists|i: int| matches_at(h, n, i)
}

/// Whether `n` occurs in `h` starting at position `i`.
fn match_at(h: &Vec<char>, n: &Vec<char>, i: usize) -> (r: bool)
    requires
        i + n@.len() <= h@.len(),
    ensures
        r == matches_at(h@, n@, i as int),
{
    let mut j: usize = 0;
    assert(h@.len() == h.len());
    while j < n.len()
        invariant
            i + n@.len() <= h@.len(),
            h@.len() <= usize::MAX,
            j <= n@.len(),
            forall|l: int| 0 <= l < j ==> h@[i + l] == n@[l],
        decreases n@.len() - j,
    {
        if h[i + j] != n[j] {
            assert(h@.subrange(i as int, i + n@.len())[j as int] == h@[i + j]);
            return false;
        }
        j += 1;
    }
    assert(h@.subrange(i as int, i + n@.len()) =~= n@);
    true
}

/// Substring search: whether the needle occurs anywhere in the haystack.
pub fn contains_chars(h: &Vec<char>, n: &Vec<char>) -> (r: bool)
    ensures
        r == contains_seq(h@, n@),
{
    if n.len() == 0 {
        assert(h@.subrange(0, 0) =~= n@);
        assert(matches_at(h@, n@, 0));
        return true;
    }
    if n.len() > h.len() {
        assert(forall|i: int| !matches_at(h@, n@, i));
        return false;
    }
    let bound: usize = h.len() - n.len();
    let mut i: usize = 0;
    assert(h@.len() == h.len());
    while i <= bound
        invariant
            h@.len() <= usize::MAX,
            1 <= n@.len() <= h@.len(),
            bound == h@.len() - n@.len(),
            i <= bound + 1,
            forall|k: int| 0 <= k < i ==> !matches_at(h@, n@, k),
        decreases bound + 1 - i,
    {
        if match_at(h, n, i) {
            return true;
        }
        i += 1;
    }
    assert(forall|k: int| matches_at(h@, n@, k) ==> 0 <= k < i);
    false
}

/// The device-identifier marker that discovery looks for in a listing line.
pub open spec fn id_marker() -> Seq<char> {
    seq!['i', 'd', '=']
}

/// The position of the last occurrence of `n` in `h`, or `-1` when `n` does
/// not occur.
pub open spec fn last_match(h: Seq<char>, n: Seq<char>) -> int
    decreases h.len(),
{
    if n.len() == 0 {
        h.len() as int
    } else if h.len() < n.len() {
        -1
    } else if h.subrange(h.len() - n.len(), h.len() as int) == n {
        h.len() - n.len()
    } else {
        last_match(h.drop_last(), n)
    }
}

/// A found marker really is a match, and lies inside the text.
pub proof fn lemma_last_match_in_range(h: Seq<char>, n: Seq<char>)
    requires
        last_match(h, n) >= 0,
    ensures
        last_match(h, n) + n.len() <= h.len(),
        matches_at(h, n, last_match(h, n)),
    decreases h.len(),
{
    if n.len() == 0 {
        assert(h.subrange(h.len() as int, h.len() as int) =~= n);
    } else if h.subrange(h.len() - n.len(), h.len() as int) == n {
    } else {
        lemma_last_match_in_range(h.drop_last(), n);
        let p: int = last_match(h.drop_last(), n);
        assert(h.drop_last().subrange(p, p + n.len()) =~= h.subrange(p, p + n.len()));
    }
}

/// The position of the last `id=` marker in a line, if any.
pub fn rfind_id(l: &Vec<char>) -> (r: Option<usize>)
    ensures
        match r {
            Some(p) => last_match(l@, id_marker()) == p as int && p + 3 <= l@.len(),
            None => last_match(l@, id_marker()) == -1,
        },
{
    let mut k: usize = l.len();
    assert(l@.take(k as int) =~= l@);
    while k >= 3
        invariant
            k <= l@.len(),
            last_match(l@, id_marker()) == last_match(l@.take(k as int), id_marker()),
        decreases k,
    {
        let ghost t = l@.take(k as int);
        assert(t.len() == k);
        if l[k - 3] == 'i' && l[k - 2] == 'd' && l[k - 1] == '=' {
            assert(t.subrange(k - 3, k as int) =~= id_marker());
            return Some(k - 3);
        }
        assert(t.subrange(k - 3, k as int)[0] == l@[k - 3]);
        assert(t.subrange(k - 3, k as int)[1] == l@[k - 2]);
        assert(t.subrange(k - 3, k as int)[2] == l@[k - 1]);
        assert(t.subrange(k - 3, k as int) != id_marker());
        assert(t.drop_last() =~= l@.take(k - 1));
        k -= 1;
    }
    None
}

/// The longest run of decimal digits at the front of a text.
pub open spec fn digit_prefix(s: Seq<char>) -> Seq<char>
    decreases s.len(),
{
    if s.len() > 0 && is_digit(s[0]) {
        seq![s[0]] + digit_prefix(s.drop_first())
    } else {
        Seq::empty()
    }
}

/// Reads the run of decimal digits starting at `start`.
pub fn read_digits(l: &Vec<char>, start: usize) -> (r: Vec<char>)
    requires
        start <= l@.len(),
    ensures
        r@ == digit_prefix(l@.skip(start as int)),
{
    let mut r: Vec<char> = Vec::new();
    let mut j: usize = start;
    assert(digit_prefix(l@.skip(start as int)) =~= r@ + digit_prefix(l@.skip(start as int)));
    while j < l.len() && l[j] as u32 >= 48 && l[j] as u32 <= 57
        invariant
            start <= j <= l@.len(),
            digit_prefix(l@.skip(start as int)) == r@ + digit_prefix(l@.skip(j as int)),
        decreases l@.len() - j,
    {
        let ghost pre = l@.skip(j as int);
        assert(pre[0] == l@[j as int]);
        assert(pre.drop_first() =~= l@.skip(j + 1));
        let ghost old_r = r@;
        r.push(l[j]);
        assert(old_r + (seq![pre[0]] + digit_prefix(l@.skip(j + 1))) =~= r@ + digit_prefix(l@.skip(
            j + 1,
        )));
        j += 1;
    }
    if j < l.len() {
        assert(l@.skip(j as int)[0] == l@[j as int]);
        assert(digit_prefix(l@.skip(j as int)) =~= Seq::<char>::empty());
    } else {
        assert(l@.skip(j as int) =~= Seq::<char>::empty());
    }
    assert(r@ + Seq::<char>::empty() =~= r@);
    r
}

} // verus!

//! The capture side: building one merged record from a timestamp and a raw
//! event line, naming a fresh log file, and the sink's accumulation of the
//! merged stream.
//!
//! The threads, the channel and the file handles live outside the library;
//! what is proved here is the text they carry: how a record is formed, how
//! the log's content grows, and that an arrival-order interleaving of
//! per-listener streams keeps every listener's own order.

use vstd::prelude::*;
use vstd::string::StringExecFns;
use crate::num::{dec_of, u64_to_dec};
use crate::text::{chars_to_string, str_to_chars};

verus! {

/// One record line as text: the capture timestamp, a space, and the raw
/// operation-and-keycode text, with `op` the operation field.
pub open spec fn record_line(ts: nat, op: Seq<char>, code: nat) -> Seq<char> {
    dec_of(ts) + seq![' '] + seq!['k', 'e', 'y'] + seq![' '] + op + seq![' '] + dec_of(code)
}

/// Builds one merged record: the capture timestamp in microseconds, one
/// space, then the raw event line verbatim — nothing of the raw text is
/// altered or reordered.
pub fn timestamp_line(micros: u64, raw: &str) -> (r: String)
    ensures
        r@ == dec_of(micros as nat) + seq![' '] + raw@,
{
    let mut v = u64_to_dec(micros);
    v.push(' ');
    let mut tail = str_to_chars(raw);
    v.append(&mut tail);
    assert(v@ =~= dec_of(micros as nat) + seq![' '] + raw@);
    chars_to_string(&v)
}

/// The prefix of every log filename.
pub open spec fn log_name_prefix() -> Seq<char> {
    seq!['t', 'i', 'l', 'a', '-']
}

/// The suffix of every log filename.
pub open spec fn log_name_suffix() -> Seq<char> {
    seq!['.', 'l', 'o', 'g']
}

/// Names a fresh log file: the name embeds, in decimal, the count of
/// entries already present in the log directory, so the name is new within
/// that directory snapshot.
pub fn log_file_name(count: usize) -> (r: String)
    ensures
        r@ == log_name_prefix() + dec_of(count as nat) + log_name_suffix(),
{
    let mut v: Vec<char> = Vec::new();
    v.push('t');
    v.push('i');
    v.push('l');
    v.push('a');
    v.push('-');
    let mut digits = u64_to_dec(count as u64);
    v.append(&mut digits);
    v.push('.');
    v.push('l');
    v.push('o');
    v.push('g');
    assert(v@ =~= log_name_prefix() + dec_of(count as nat) + log_name_suffix());
    chars_to_string(&v)
}

/// The log's content after the sink has consumed a stream of merged
/// records: their concatenation, in arrival order.
pub open spec fn sink_content(records: Seq<Seq<char>>) -> Seq<char>
    decreases records.len(),
{
    if records.len() == 0 {
        Seq::empty()
    } else {
        records[0] + sink_content(records.drop_first())
    }
}

/// Appends one merged record to the log's content. The sink does nothing
/// else to a record: no reordering, no rewriting.
pub fn sink_append(log: &mut String, record: &str)
    ensures
        final(log)@ == old(log)@ + record@,
{
    log.append(record);
}

/// The log content a whole drained stream leaves behind: each record
/// appended in arrival order.
pub fn sink_drain(records: &Vec<String>) -> (r: String)
    ensures
        r@ == sink_content(records.deep_view()),
{
    let ghost rs = records.deep_view();
    let mut log = String::new();
    let mut i: usize = 0;
    assert(rs.skip(0) =~= rs);
    assert(log@ + sink_content(rs) =~= sink_content(rs));
    while i < records.len()
        invariant
            i <= rs.len(),
            rs == records.deep_view(),
            sink_content(rs) == log@ + sink_content(rs.skip(i as int)),
        decreases rs.len() - i,
    {
        let ghost pre = rs.skip(i as int);
        assert(pre[0] == rs[i as int]);
        assert(pre.drop_first() =~= rs.skip(i + 1));
        assert(records@[i as int].deep_view() == records@[i as int]@);
        let ghost old_log = log@;
        sink_append(&mut log, records[i].as_str());
        assert(old_log + (rs[i as int] + sink_content(rs.skip(i + 1))) =~= log@ + sink_content(
            rs.skip(i + 1),
        ));
        i += 1;
    }
    assert(rs.skip(i as int) =~= Seq::<Seq<char>>::empty());
    assert(log@ + Seq::<char>::empty() =~= log@);
    log
}

/// The records of producer `p` in a tagged merged stream, in stream order.
pub open spec fn project(m: Seq<(int, Seq<char>)>, p: int) -> Seq<Seq<char>>
    decreases m.len(),
{
    if m.len() == 0 {
        Seq::empty()
    } else if m[0].0 == p {
        seq![m[0].1] + project(m.drop_first(), p)
    } else {
        project(m.drop_first(), p)
    }
}

/// The merged stream is an arrival-order interleaving of the producers'
/// streams: each merged record is the next unconsumed record of the
/// producer it is tagged with, and every producer's stream is consumed
/// completely.
pub open spec fn is_interleaving(m: Seq<(int, Seq<char>)>, prods: Seq<Seq<Seq<char>>>) -> bool
    decreases m.len(),
{
    if m.len() == 0 {
        forall|q: int| 0 <= q < prods.len() ==> (#[trigger] prods[q]).len() == 0
    } else {
        exists|q: int|
            0 <= q < prods.len() && (#[trigger] prods[q]).len() > 0 && m[0] == (q, prods[q][0])
                && is_interleaving(m.drop_first(), prods.update(q, prods[q].drop_first()))
    }
}

/// Per-producer order preservation: however the listeners' streams arrive
/// interleaved at the merge channel, the merged stream carries each
/// listener's records exactly in the order that listener sent them.
pub proof fn lemma_interleaving_preserves_producer_order(
    m: Seq<(int, Seq<char>)>,
    prods: Seq<Seq<Seq<char>>>,
    p: int,
)
    requires
        is_interleaving(m, prods),
        0 <= p < prods.len(),
    ensures
        project(m, p) == prods[p],
    decreases m.len(),
{
    if m.len() == 0 {
        assert(prods[p].len() == 0);
        assert(project(m, p) =~= prods[p]);
    } else {
        let q: int = choose|q: int|
            0 <= q < prods.len() && (#[trigger] prods[q]).len() > 0 && m[0] == (q, prods[q][0])
                && is_interleaving(m.drop_first(), prods.update(q, prods[q].drop_first()));
        let prods2 = prods.update(q, prods[q].drop_first());
        lemma_interleaving_preserves_producer_order(m.drop_first(), prods2, p);
        if p == q {
            assert(prods2[p] == prods[p].drop_first());
            assert(m[0].0 == p && m[0].1 == prods[p][0]);
            assert(seq![prods[p][0]] + prods[p].drop_first() =~= prods[p]);
        } else {
            assert(prods2[p] == prods[p]);
            assert(m[0].0 != p);
        }
    }
}

} // verus!

//! Bulk ingestion of a delimited edge list.
//!
//! The input is plain text, one edge per line: two unsigned 32-bit decimal
//! columns separated by a configurable single-byte delimiter, with an
//! optional carriage return before each line feed. A malformed record
//! aborts the whole load with the offending row; the store then stays in
//! the loading phase. On success the load ends with
//! [`Graph::complete_load`], which drains the pending queue and flips the
//! store to ready.

use vstd::prelude::*;
use crate::graph::Graph;
use crate::graph::PendingAction;
use crate::graph::apply_action;
use crate::graph::apply_actions;

verus! {

/// Why a bulk load aborted. The store stays in the loading phase either way.
#[derive(Clone, Copy, PartialEq, Eq, Structural, Debug)]
pub enum LoadError {
    /// The input source could not be read.
    Io,
    /// The 1-based row that did not parse into two 32-bit columns.
    Parse(u64),
}

/// Whether the byte is an ASCII decimal digit.
pub open spec fn is_digit(b: u8) -> bool {
    48 <= b <= 57
}

/// The number a digit sequence denotes, most significant digit first.
pub open spec fn dec_value(s: Seq<u8>) -> nat
    decreases s.len(),
{
    if s.len() == 0 {
        0
    } else {
        dec_value(s.drop_last()) * 10 + (s.last() - 48) as nat
    }
}

/// Whether the bytes are a decimal rendering of a 32-bit value: nonempty,
/// digits only, value in range.
pub open spec fn is_valid_field(s: Seq<u8>) -> bool {
    &&& s.len() > 0
    &&& forall|i: int| 0 <= i < s.len() ==> is_digit(#[trigger] s[i])
    &&& dec_value(s) <= u32::MAX
}

/// The index of the first occurrence of `b`, or the length if absent.
pub open spec fn first_pos(s: Seq<u8>, b: u8) -> int
    decreases s.len(),
{
    if s.len() == 0 {
        0
    } else if s[0] == b {
        0
    } else {
        1 + first_pos(s.drop_first(), b)
    }
}

/// A line without its trailing carriage return, if it carries one.
pub open spec fn strip_cr(line: Seq<u8>) -> Seq<u8> {
    if line.len() > 0 && line.last() == 13 {
        line.drop_last()
    } else {
        line
    }
}

/// What a line denotes: its two columns as 32-bit values, or nothing if
/// it does not split on exactly one delimiter into two valid columns.
pub open spec fn parse_record(line: Seq<u8>, delimiter: u8) -> Option<(u32, u32)> {
    let l = strip_cr(line);
    let m = first_pos(l, delimiter);
    if 0 <= m < l.len() {
        let f1 = l.take(m);
        let f2 = l.skip(m + 1);
        if first_pos(f2, delimiter) == f2.len() && is_valid_field(f1) && is_valid_field(f2) {
            Some((dec_value(f1) as u32, dec_value(f2) as u32))
        } else {
            None
        }
    } else {
        None
    }
}

/// The lines of the input: the segments between line feeds. A final line
/// feed closes the last line rather than opening an empty one.
pub open spec fn split_lines(data: Seq<u8>) -> Seq<Seq<u8>>
    decreases data.len(),
{
    if data.len() == 0 {
        Seq::empty()
    } else {
        let m = first_pos(data, 10);
        if 0 <= m < data.len() {
            seq![data.take(m)] + split_lines(data.skip(m + 1))
        } else {
            seq![data]
        }
    }
}

/// The edge insertions a sequence of well-formed lines drives, in order.
pub open spec fn edge_actions(lines: Seq<Seq<u8>>, delimiter: u8) -> Seq<PendingAction> {
    lines.map(|i: int, l: Seq<u8>| PendingAction::AddEdge(
        parse_record(l, delimiter).unwrap().0,
        parse_record(l, delimiter).unwrap().1,
    ))
}

/// `first_pos` is in bounds, lands on `b` when `b` occurs, and nothing
/// before it is `b`.
proof fn lemma_first_pos_bounds(s: Seq<u8>, b: u8)
    ensures
        0 <= first_pos(s, b) <= s.len(),
        first_pos(s, b) < s.len() ==> s[first_pos(s, b)] == b,
        forall|j: int| 0 <= j < first_pos(s, b) ==> s[j] != b,
    decreases s.len(),
{
    if s.len() == 0 {
    } else if s[0] == b {
    } else {
        lemma_first_pos_bounds(s.drop_first(), b);
        assert forall|j: int| 0 <= j < first_pos(s, b) implies s[j] != b by {
            if j > 0 {
                assert(s.drop_first()[j - 1] != b);
            }
        }
    }
}

/// A position with nothing equal to `b` before it, and `b` on it unless
/// it is the length, is `first_pos`.
proof fn lemma_first_pos_is(s: Seq<u8>, b: u8, p: int)
    requires
        0 <= p <= s.len(),
        forall|j: int| 0 <= j < p ==> s[j] != b,
        p < s.len() ==> s[p] == b,
    ensures
        first_pos(s, b) == p,
{
    lemma_first_pos_bounds(s, b);
    let fp = first_pos(s, b);
    if fp < p {
        assert(s[fp] != b);
    }
    if p < fp {
        assert(s[p] != b);
    }
}

/// A prefix of a digit string never denotes more than the whole string.
proof fn lemma_dec_value_prefix_mono(s: Seq<u8>, k: int)
    requires
        0 <= k <= s.len(),
    ensures
        dec_value(s.take(k)) <= dec_value(s),
    decreases s.len() - k,
{
    if k == s.len() {
        assert(s.take(k) =~= s);
    } else {
        assert(s.take(k + 1).drop_last() =~= s.take(k));
        assert(dec_value(s.take(k + 1))
            == dec_value(s.take(k)) * 10 + (s.take(k + 1).last() - 48) as nat);
        lemma_dec_value_prefix_mono(s, k + 1);
    }
}

/// There are never more lines than bytes.
proof fn lemma_split_lines_count(data: Seq<u8>)
    ensures
        split_lines(data).len() <= data.len(),
    decreases data.len(),
{
    if data.len() == 0 {
    } else {
        let m = first_pos(data, 10);
        lemma_first_pos_bounds(data, 10);
        if 0 <= m < data.len() {
            lemma_split_lines_count(data.skip(m + 1));
        }
    }
}

/// Applying a concatenation is applying the parts in turn.
pub proof fn lemma_apply_actions_append(
    v: crate::graph::GraphView,
    a: Seq<PendingAction>,
    b: Seq<PendingAction>,
)
    ensures
        apply_actions(v, a + b) == apply_actions(apply_actions(v, a), b),
    decreases a.len(),
{
    if a.len() == 0 {
        assert(a + b =~= b);
    } else {
        assert((a + b)[0] == a[0]);
        assert((a + b).drop_first() =~= a.drop_first() + b);
        lemma_apply_actions_append(apply_action(v, a[0]), a.drop_first(), b);
    }
}

/// The index of the first `b` in `data` at or past `start` and before
/// `end`, or `end` if there is none there.
fn scan_byte(data: &Vec<u8>, start: usize, end: usize, b: u8) -> (r: usize)
    requires
        start <= end <= data@.len(),
    ensures
        start <= r <= end,
        forall|j: int| start <= j < r ==> data@[j] != b,
        r < end ==> data@[r as int] == b,
{
    let mut k: usize = start;
    while k < end
        invariant
            start <= k <= end <= data@.len(),
            forall|j: int| start <= j < k ==> data@[j] != b,
        decreases end - k,
    {
        if data[k] == b {
            return k;
        }
        k += 1;
    }
    k
}

/// Parses `data[start..end]` as one unsigned 32-bit decimal column.
fn parse_field(data: &Vec<u8>, start: usize, end: usize) -> (r: Option<u32>)
    requires
        start <= end <= data@.len(),
    ensures
        match r {
            Some(v) => is_valid_field(data@.subrange(start as int, end as int))
                && v == dec_value(data@.subrange(start as int, end as int)),
            None => !is_valid_field(data@.subrange(start as int, end as int)),
        },
{
    let ghost field = data@.subrange(start as int, end as int);
    if start == end {
        return None;
    }
    let mut acc: u64 = 0;
    let mut k: usize = start;
    while k < end
        invariant
            start <= k <= end <= data@.len(),
            field == data@.subrange(start as int, end as int),
            forall|j: int| start <= j < k ==> is_digit(data@[j]),
            acc == dec_value(data@.subrange(start as int, k as int)),
            acc <= u32::MAX,
        decreases end - k,
    {
        let b = data[k];
        if b < 48 || b > 57 {
            proof {
                assert(field[k - start as int] == data@[k as int]);
                assert(!is_digit(field[k - start as int]));
            }
            return None;
        }
        let d: u64 = (b - 48) as u64;
        let next: u64 = acc * 10 + d;
        proof {
            assert(data@.subrange(start as int, k as int + 1).drop_last()
                =~= data@.subrange(start as int, k as int));
            assert(dec_value(data@.subrange(start as int, k as int + 1))
                == acc * 10 + (b - 48) as nat);
        }
        if next > 0xFFFF_FFFFu64 {
            proof {
                assert(field.take(k as int + 1 - start as int)
                    =~= data@.subrange(start as int, k as int + 1));
                lemma_dec_value_prefix_mono(field, k as int + 1 - start as int);
                assert(dec_value(field) > u32::MAX);
            }
            return None;
        }
        acc = next;
        k += 1;
    }
    proof {
        assert(field =~= data@.subrange(start as int, end as int));
        assert forall|i: int| 0 <= i < field.len() implies is_digit(field[i]) by {
            assert(field[i] == data@[start as int + i]);
        }
    }
    Some(acc as u32)
}

/// Parses the line `data[lstart..lend0]` as one record.
fn parse_line(data: &Vec<u8>, lstart: usize, lend0: usize, delimiter: u8) -> (r: Option<(u32, u32)>)
    requires
        lstart <= lend0 <= data@.len(),
    ensures
        r == parse_record(data@.subrange(lstart as int, lend0 as int), delimiter),
{
    let ghost line = data@.subrange(lstart as int, lend0 as int);
    let lend = if lend0 > lstart && data[lend0 - 1] == 13 {
        lend0 - 1
    } else {
        lend0
    };
    let ghost l = strip_cr(line);
    proof {
        assert(l =~= data@.subrange(lstart as int, lend as int));
    }
    let dpos = scan_byte(data, lstart, lend, delimiter);
    if dpos == lend {
        proof {
            assert forall|j: int| 0 <= j < l.len() implies l[j] != delimiter by {
                assert(l[j] == data@[lstart as int + j]);
            }
            lemma_first_pos_is(l, delimiter, l.len() as int);
        }
        return None;
    }
    proof {
        assert forall|j: int| 0 <= j < dpos - lstart implies l[j] != delimiter by {
            assert(l[j] == data@[lstart as int + j]);
        }
        assert(l[dpos - lstart as int] == data@[dpos as int]);
        lemma_first_pos_is(l, delimiter, dpos - lstart as int);
    }
    let ghost m = first_pos(l, delimiter);
    let ghost f1 = l.take(m);
    let ghost f2 = l.skip(m + 1);
    proof {
        assert(f1 =~= data@.subrange(lstart as int, dpos as int));
        assert(f2 =~= data@.subrange(dpos as int + 1, lend as int));
    }
    let d2 = scan_byte(data, dpos + 1, lend, delimiter);
    if d2 < lend {
        proof {
            assert forall|j: int| 0 <= j < d2 - (dpos + 1) implies f2[j] != delimiter by {
                assert(f2[j] == data@[dpos as int + 1 + j]);
            }
            assert(f2[d2 - (dpos + 1) as int] == data@[d2 as int]);
            lemma_first_pos_is(f2, delimiter, d2 - (dpos + 1) as int);
        }
        return None;
    }
    proof {
        assert forall|j: int| 0 <= j < f2.len() implies f2[j] != delimiter by {
            assert(f2[j] == data@[dpos as int + 1 + j]);
        }
        lemma_first_pos_is(f2, delimiter, f2.len() as int);
    }
    let v1 = match parse_field(data, lstart, dpos) {
        Some(v) => v,
        None => {
            return None;
        },
    };
    let v2 = match parse_field(data, dpos + 1, lend) {
        Some(v) => v,
        None => {
            return None;
        },
    };
    Some((v1, v2))
}

impl Graph {
    /// Streams a delimited edge list into the store: one `add_edge` per
    /// record, then the load-completion step, which drains the pending
    /// queue in FIFO order and flips the store to ready. Returns the
    /// number of records loaded.
    ///
    /// A malformed record aborts the load instead: nothing past it is
    /// applied, the queue and the load-phase flag are untouched, and the
    /// error carries the 1-based row, so a partly ingested graph is never
    /// exposed as loaded.
    pub fn load_from_bytes(&mut self, data: &Vec<u8>, delimiter: u8) -> (r: Result<u64, LoadError>)
        requires
            old(self).well_formed(),
        ensures
            final(self).well_formed(),
            match r {
                Ok(count) => {
                    &&& count == split_lines(data@).len()
                    &&& forall|i: int| 0 <= i < split_lines(data@).len()
                        ==> parse_record(split_lines(data@)[i], delimiter) is Some
                    &&& final(self)@ == apply_actions(
                        old(self)@,
                        edge_actions(split_lines(data@), delimiter) + old(self).pending_actions(),
                    )
                    &&& final(self).is_loaded_spec()
                    &&& final(self).pending_actions() == Seq::<PendingAction>::empty()
                },
                Err(e) => match e {
                    LoadError::Parse(row) => {
                        &&& 1 <= row <= split_lines(data@).len()
                        &&& parse_record(split_lines(data@)[row - 1], delimiter) is None
                        &&& forall|i: int| 0 <= i < row - 1
                            ==> parse_record(split_lines(data@)[i], delimiter) is Some
                        &&& final(self)@ == apply_actions(
                            old(self)@,
                            edge_actions(split_lines(data@).take(row - 1), delimiter),
                        )
                        &&& final(self).is_loaded_spec() == old(self).is_loaded_spec()
                        &&& final(self).pending_actions() == old(self).pending_actions()
                    },
                    LoadError::Io => false,
                },
            },
    {
        let ghost lines = split_lines(data@);
        let n = data.len();
        proof {
            lemma_split_lines_count(data@);
        }
        let mut pos: usize = 0;
        let mut row: u64 = 0;
        proof {
            assert(data@.skip(0) =~= data@);
            assert(lines.skip(0) =~= lines);
        }
        while pos < n
            invariant
                old(self).well_formed(),
                self.well_formed(),
                n == data@.len(),
                lines == split_lines(data@),
                pos <= n,
                row <= lines.len(),
                lines.len() <= n,
                split_lines(data@.skip(pos as int)) == lines.skip(row as int),
                forall|i: int| 0 <= i < row
                    ==> parse_record(lines[i], delimiter) is Some,
                self@ == apply_actions(old(self)@, edge_actions(lines.take(row as int), delimiter)),
                self.is_loaded_spec() == old(self).is_loaded_spec(),
                self.pending_actions() == old(self).pending_actions(),
            decreases n - pos,
        {
            let eol = scan_byte(data, pos, n, 10);
            let ghost suffix = data@.skip(pos as int);
            let ghost line = data@.subrange(pos as int, eol as int);
            proof {
                assert forall|j: int| 0 <= j < eol - pos implies suffix[j] != 10u8 by {
                    assert(suffix[j] == data@[pos as int + j]);
                }
                if eol < n {
                    assert(suffix[eol - pos as int] == data@[eol as int]);
                }
                lemma_first_pos_is(suffix, 10, eol - pos as int);
                assert(suffix.take(eol - pos as int) =~= line);
                if eol < n {
                    assert(suffix.skip(eol - pos as int + 1) =~= data@.skip(eol as int + 1));
                    assert(split_lines(suffix)
                        == seq![suffix.take(eol - pos as int)]
                            + split_lines(suffix.skip(eol - pos as int + 1)));
                    assert(split_lines(suffix) == seq![line] + split_lines(data@.skip(eol as int + 1)));
                } else {
                    assert(suffix =~= line);
                    assert(split_lines(suffix) == seq![line]);
                }
                assert(lines.skip(row as int).len() > 0);
                assert(row < lines.len());
                assert(lines.skip(row as int)[0] == lines[row as int]);
                assert(lines[row as int] == line);
            }
            match parse_line(data, pos, eol, delimiter) {
                Some((s, t)) => {
                    let ghost before = *self;
                    self.add_edge(s, t);
                    proof {
                        let acts = edge_actions(lines.take(row as int), delimiter);
                        let act = PendingAction::AddEdge(s, t);
                        assert(parse_record(lines[row as int], delimiter) == Some((s, t)));
                        assert(edge_actions(lines.take(row as int + 1), delimiter)
                            =~= acts.push(act));
                        lemma_apply_actions_append(old(self)@, acts, seq![act]);
                        assert(acts + seq![act] =~= acts.push(act));
                        let x = apply_actions(old(self)@, acts);
                        assert(x == before@);
                        assert(seq![act][0] == act);
                        assert(seq![act].drop_first() =~= Seq::<PendingAction>::empty());
                        assert(apply_actions(x, seq![act])
                            == apply_actions(apply_action(x, act), Seq::<PendingAction>::empty()));
                        assert(apply_actions(apply_action(x, act), Seq::<PendingAction>::empty())
                            == apply_action(x, act));
                        assert(self@ == apply_action(before@, act));
                        assert(self@ == apply_actions(
                            old(self)@,
                            edge_actions(lines.take(row as int + 1), delimiter),
                        ));
                    }
                },
                None => {
                    proof {
                        assert(lines.take(row as int) =~= lines.take((row + 1) as int - 1));
                    }
                    return Err(LoadError::Parse(row + 1));
                },
            }
            let ghost row0 = row as int;
            row = row + 1;
            pos = if eol < n {
                eol + 1
            } else {
                eol
            };
            proof {
                assert(lines.skip(row0 + 1) =~= lines.skip(row0).drop_first());
                if eol < n {
                    assert((seq![line] + split_lines(data@.skip(eol as int + 1))).drop_first()
                        =~= split_lines(data@.skip(eol as int + 1)));
                    assert(split_lines(data@.skip(pos as int))
                        == split_lines(data@.skip(eol as int + 1)));
                } else {
                    assert(seq![line].drop_first() =~= Seq::<Seq<u8>>::empty());
                    assert(data@.skip(pos as int) =~= Seq::<u8>::empty());
                    assert(split_lines(data@.skip(pos as int)) == Seq::<Seq<u8>>::empty());
                }
                assert(split_lines(data@.skip(pos as int)) == lines.skip(row as int));
            }
        }
        proof {
            assert(data@.skip(pos as int) =~= Seq::<u8>::empty());
            assert(lines.skip(row as int).len() == 0);
            assert(row == lines.len());
            assert(lines.take(row as int) =~= lines);
        }
        self.complete_load();
        proof {
            lemma_apply_actions_append(
                old(self)@,
                edge_actions(lines, delimiter),
                old(self).pending_actions(),
            );
        }
        Ok(row)
    }
}

} // verus!

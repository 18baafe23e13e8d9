//! The per-file batch producer.
//!
//! A restartable-per-file, finite lazy sequence of batch results over one
//! file's bytes: each production step reads up to `batch_size` records
//! (skipping blank lines), materializes them against the target fields, and
//! reports exhaustion when only blank bytes remain. A line that is not a
//! well-formed record, or a value that cannot be reconciled with the target
//! schema, is a fatal parse error.

use vstd::prelude::*;

use crate::ScanError;
use crate::batch::Batch;
use crate::batch::BatchModel;
use crate::batch::batch_wf;
use crate::materialize::materialize;
use crate::materialize::mat_model;
use crate::materialize::rows_ok;
use crate::materialize::rows_view;
use crate::parse::RowField;
use crate::parse::RowModel;
use crate::parse::is_ws;
use crate::parse::parse_record;
use crate::parse::parse_record_line;
use crate::parse::row_view;
use crate::parse::skip_ws;
use crate::parse::ws_end;
use crate::schema::Field;
use crate::schema::FieldModel;
use crate::schema::fields_model;

verus! {

/// Position of the line break ending the line that starts at `i` (or the
/// end of the data).
pub open spec fn line_end(s: Seq<u8>, i: int) -> int
    decreases s.len() - i,
{
    if 0 <= i < s.len() && s[i] != 10 {
        line_end(s, i + 1)
    } else {
        i
    }
}

pub proof fn lemma_line_end(s: Seq<u8>, i: int)
    requires
        0 <= i <= s.len(),
    ensures
        i <= line_end(s, i) <= s.len(),
    decreases s.len() - i,
{
    if i < s.len() && s[i] != 10 {
        lemma_line_end(s, i + 1);
    }
}

/// Whether only whitespace and line breaks remain at or after `i`: the
/// producer's exhaustion condition.
pub open spec fn rest_blank(s: Seq<u8>, i: int) -> bool
    decreases s.len() - i,
{
    if i < 0 {
        false
    } else if i >= s.len() {
        true
    } else if is_ws(s[i]) || s[i] == 10 {
        rest_blank(s, i + 1)
    } else {
        false
    }
}

/// Whether one line (which holds no line break) is blank.
pub open spec fn line_blank(line: Seq<u8>) -> bool {
    skip_ws(line, 0) == line.len()
}

/// What one chunk-read pass yields: the records read (`None` on a malformed
/// line), and the position the pass stopped at.
#[verifier::ext_equal]
pub struct ChunkOut {
    pub rows: Option<Seq<RowModel>>,
    pub end: int,
}

/// Reads up to `n` records from position `i`: blank lines are skipped, a
/// malformed line stops the pass with an error, and the pass also stops when
/// only blank bytes remain.
pub open spec fn chunk_rows(s: Seq<u8>, i: int, n: nat) -> ChunkOut
    decreases s.len() - i,
    when 0 <= i <= s.len()
    via chunk_rows_decreases
{
    if n == 0 || rest_blank(s, i) {
        ChunkOut { rows: Option::Some(Seq::empty()), end: i }
    } else {
        let e = line_end(s, i);
        let nx = if e < s.len() { e + 1 } else { e };
        let line = s.subrange(i, e);
        if line_blank(line) {
            chunk_rows(s, nx, n)
        } else {
            match parse_record(line) {
                Option::None => ChunkOut { rows: Option::None, end: nx },
                Option::Some(row) => {
                    let rest = chunk_rows(s, nx, (n - 1) as nat);
                    match rest.rows {
                        Option::None => ChunkOut { rows: Option::None, end: rest.end },
                        Option::Some(rs) => ChunkOut {
                            rows: Option::Some(seq![row] + rs),
                            end: rest.end,
                        },
                    }
                },
            }
        }
    }
}

#[via_fn]
proof fn chunk_rows_decreases(s: Seq<u8>, i: int, n: nat) {
    if 0 <= i <= s.len() && !(n == 0 || rest_blank(s, i)) {
        assert(i < s.len());
        lemma_line_end(s, i);
    }
}

/// A chunk-read pass over non-blank remaining bytes always advances.
pub proof fn lemma_chunk_advances(s: Seq<u8>, i: int, n: nat)
    requires
        0 <= i <= s.len(),
        !rest_blank(s, i),
        n >= 1,
    ensures
        i < chunk_rows(s, i, n).end <= s.len(),
    decreases s.len() - i,
{
    lemma_line_end(s, i);
    let e = line_end(s, i);
    let nx: int = if e < s.len() { e + 1 } else { e };
    if line_blank(s.subrange(i, e)) {
        if !rest_blank(s, nx) {
            lemma_chunk_advances(s, nx, n);
        }
    } else if parse_record(s.subrange(i, e)) is Some {
        if !rest_blank(s, nx) && n - 1 >= 1 {
            lemma_chunk_advances(s, nx, (n - 1) as nat);
        }
    }
}

/// What one production step yields: `None` marks exhaustion, otherwise one
/// batch result; and the position the producer moved to.
#[verifier::ext_equal]
pub struct StepOut {
    pub item: Option<Result<BatchModel, ScanError>>,
    pub end: int,
}

/// One production step at position `i`: exhaustion when only blank bytes
/// remain, a malformed-record error, a type-mismatch error, or one batch of
/// up to `n` records materialized against the target fields.
pub open spec fn produce_step(s: Seq<u8>, i: int, fields: Seq<FieldModel>, n: nat) -> StepOut {
    if rest_blank(s, i) {
        StepOut { item: Option::None, end: i }
    } else {
        let c = chunk_rows(s, i, n);
        match c.rows {
            Option::None => StepOut {
                item: Option::Some(Result::Err(ScanError::MalformedRecord)),
                end: c.end,
            },
            Option::Some(rows) => if rows_ok(rows, fields) {
                StepOut {
                    item: Option::Some(Result::Ok(mat_model(rows, fields))),
                    end: c.end,
                }
            } else {
                StepOut {
                    item: Option::Some(Result::Err(ScanError::TypeMismatch)),
                    end: c.end,
                }
            },
        }
    }
}

/// Whether only whitespace and line breaks remain at or after `i`.
pub(crate) fn rest_blank_at(data: &Vec<u8>, i: usize) -> (r: bool)
    requires
        i <= data.len(),
    ensures
        r == rest_blank(data@, i as int),
{
    let mut p: usize = i;
    while p < data.len() && (data[p] == 32 || data[p] == 9 || data[p] == 13 || data[p] == 10)
        invariant
            i <= p <= data.len(),
            rest_blank(data@, i as int) == rest_blank(data@, p as int),
        decreases data.len() - p,
    {
        p += 1;
    }
    p >= data.len()
}

/// Position of the line break ending the line that starts at `i`.
pub(crate) fn line_end_at(data: &Vec<u8>, i: usize) -> (r: usize)
    requires
        i <= data.len(),
    ensures
        r == line_end(data@, i as int),
        i <= r <= data.len(),
{
    let mut p: usize = i;
    while p < data.len() && data[p] != 10
        invariant
            i <= p <= data.len(),
            line_end(data@, i as int) == line_end(data@, p as int),
        decreases data.len() - p,
    {
        p += 1;
    }
    p
}

/// A finite lazy sequence of batch results over one file's bytes.
#[derive(Debug)]
pub struct JsonBatchReader {
    /// The file's bytes (the producer owns its byte source exclusively).
    pub data: Vec<u8>,
    /// Read position: everything before it has been consumed.
    pub pos: usize,
    /// The target fields every produced batch conforms to.
    pub fields: Vec<Field>,
    /// Maximum number of records per produced batch.
    pub batch_size: usize,
}

impl JsonBatchReader {
    /// The producer's read position never passes the end of its data.
    pub open spec fn wf(&self) -> bool {
        self.pos <= self.data.len()
    }

    /// A fresh producer over one file's bytes, positioned at the start.
    pub fn new(data: Vec<u8>, fields: Vec<Field>, batch_size: usize) -> (r: JsonBatchReader)
        ensures
            r.wf(),
            r.data@ == data@,
            r.pos == 0,
            fields_model(r.fields@) == fields_model(fields@),
            r.batch_size == batch_size,
    {
        JsonBatchReader { data, pos: 0, fields, batch_size }
    }

    /// One production step, as [`produce_step`] defines it: `None` on
    /// exhaustion, otherwise one batch of up to `batch_size` records
    /// materialized against the target fields, or a fatal error.
    #[verifier::loop_isolation(false)]
    pub fn next(&mut self) -> (r: Option<Result<Batch, ScanError>>)
        requires
            old(self).wf(),
        ensures
            final(self).wf(),
            final(self).data@ == old(self).data@,
            fields_model(final(self).fields@) == fields_model(old(self).fields@),
            final(self).batch_size == old(self).batch_size,
            ({
                let step = produce_step(
                    old(self).data@,
                    old(self).pos as int,
                    fields_model(old(self).fields@),
                    old(self).batch_size as nat,
                );
                &&& final(self).pos == step.end
                &&& match r {
                    Option::None => step.item is None,
                    Option::Some(Result::Ok(b)) => step.item == Option::Some(
                        Result::<BatchModel, ScanError>::Ok(b@),
                    ) && batch_wf(b@),
                    Option::Some(Result::Err(e)) => step.item == Option::Some(
                        Result::<BatchModel, ScanError>::Err(e),
                    ),
                }
            }),
    {
        let ghost s = self.data@;
        let ghost p0 = self.pos as int;
        let ghost fm = fields_model(self.fields@);
        let ghost n = self.batch_size as nat;
        if rest_blank_at(&self.data, self.pos) {
            return Option::None;
        }
        let mut rows: Vec<Vec<RowField>> = Vec::new();
        let mut k: usize = 0;
        while k < self.batch_size && !rest_blank_at(&self.data, self.pos)
            invariant
                self.wf(),
                self.data@ == s,
                self.fields == old(self).fields,
                self.batch_size == old(self).batch_size,
                k <= self.batch_size,
                k == rows.len(),
                chunk_rows(s, p0, n) == ({
                    let rest = chunk_rows(s, self.pos as int, (n - k) as nat);
                    match rest.rows {
                        Option::None => rest,
                        Option::Some(rs) => ChunkOut {
                            rows: Option::Some(rows_view(rows@) + rs),
                            end: rest.end,
                        },
                    }
                }),
            decreases self.data.len() - self.pos + (self.batch_size - k),
        {
            let ghost p = self.pos as int;
            let ghost m = (n - k) as nat;
            let e = line_end_at(&self.data, self.pos);
            let nx = if e < self.data.len() { e + 1 } else { e };
            let line = crate::parse::copy_range(&self.data, self.pos, e);
            proof {
                lemma_chunk_advances(s, p, m);
            }
            if ws_end(&line, 0) == line.len() {
                self.pos = nx;
                proof {
                    assert(chunk_rows(s, p, m) == chunk_rows(s, nx as int, m));
                }
            } else {
                match parse_record_line(&line) {
                    Option::None => {
                        self.pos = nx;
                        proof {
                            assert(chunk_rows(s, p, m) == ChunkOut {
                                rows: Option::None,
                                end: nx as int,
                            });
                            assert(chunk_rows(s, p0, n) == ChunkOut {
                                rows: Option::None,
                                end: nx as int,
                            });
                        }
                        return Option::Some(Result::Err(ScanError::MalformedRecord));
                    },
                    Option::Some(rowvec) => {
                        let ghost rowm = row_view(rowvec@);
                        let ghost oldrows = rows@;
                        rows.push(rowvec);
                        self.pos = nx;
                        k += 1;
                        proof {
                            let rest = chunk_rows(s, nx as int, (m - 1) as nat);
                            assert(chunk_rows(s, p, m) == (match rest.rows {
                                Option::None => rest,
                                Option::Some(rs) => ChunkOut {
                                    rows: Option::Some(seq![rowm] + rs),
                                    end: rest.end,
                                },
                            }));
                            assert(rows_view(rows@) =~= rows_view(oldrows).push(rowm));
                            if rest.rows is Some {
                                assert(rows_view(oldrows) + (seq![rowm] + rest.rows->Some_0)
                                    =~= rows_view(rows@) + rest.rows->Some_0);
                            }
                        }
                    },
                }
            }
        }
        proof {
            assert(chunk_rows(s, self.pos as int, (n - k) as nat) == ChunkOut {
                rows: Option::Some(Seq::<RowModel>::empty()),
                end: self.pos as int,
            });
            assert(rows_view(rows@) + Seq::<RowModel>::empty() =~= rows_view(rows@));
            assert(chunk_rows(s, p0, n) == ChunkOut {
                rows: Option::Some(rows_view(rows@)),
                end: self.pos as int,
            });
        }
        match materialize(&rows, &self.fields) {
            Result::Ok(b) => Option::Some(Result::Ok(b)),
            Result::Err(e) => Option::Some(Result::Err(e)),
        }
    }
}

} // verus!

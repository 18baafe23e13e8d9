//! The partition stream.
//!
//! Drives one partition (one ordered file group) end to end: drains each
//! file's batch producer in order, truncates batches to the remaining row
//! budget, appends the constant partition-derived columns, and terminates —
//! fatally — at the first malformed file. The whole emitted sequence is
//! defined by the [`stream_rest`] specification.

use vstd::prelude::*;

use crate::ScanError;
use crate::batch::Batch;
use crate::batch::BatchModel;
use crate::batch::batch_take;
use crate::batch::batch_wf;
use crate::batch::batch_with_col;
use crate::batch::col_view;
use crate::batch::duplicate_fields;
use crate::batch::duplicate_value;
use crate::parse::copy_range;
use crate::producer::JsonBatchReader;
use crate::producer::produce_step;
use crate::schema::Field;
use crate::schema::FieldModel;
use crate::schema::JsonValue;
use crate::schema::ValModel;
use crate::schema::fields_model;
use crate::schema::val_matches;

verus! {

broadcast use vstd::prelude::Seq::lemma_push_map_commute, vstd::prelude::Seq::lemma_map_take_succ;

/// One file of a partition's group: its bytes and the values the configured
/// partition columns take for it.
#[derive(Debug)]
pub struct ScanFile {
    pub contents: Vec<u8>,
    pub partition_values: Vec<JsonValue>,
}

/// Model of a partition-column value list.
pub open spec fn pvals_view(pv: Seq<JsonValue>) -> Seq<ValModel> {
    pv.map_values(|v: JsonValue| v@)
}

/// Model of one file.
#[verifier::ext_equal]
pub struct FileModel {
    pub data: Seq<u8>,
    pub pvals: Seq<ValModel>,
}

impl View for ScanFile {
    type V = FileModel;

    open spec fn view(&self) -> FileModel {
        FileModel { data: self.contents@, pvals: pvals_view(self.partition_values@) }
    }
}

/// Model of a file group.
pub open spec fn files_view(fs: Seq<ScanFile>) -> Seq<FileModel> {
    fs.map_values(|f: ScanFile| f@)
}

/// Models of a list of drained batches, as the stream's owed sequence
/// counts them.
pub open spec fn ok_results(batches: Seq<Batch>) -> Seq<Result<BatchModel, ScanError>> {
    batches.map_values(|b: Batch| Result::<BatchModel, ScanError>::Ok(b@))
}

/// A copy of a value list with the same model.
pub(crate) fn duplicate_values(pv: &Vec<JsonValue>) -> (r: Vec<JsonValue>)
    ensures
        pvals_view(r@) == pvals_view(pv@),
{
    let mut r: Vec<JsonValue> = Vec::new();
    let mut t: usize = 0;
    while t < pv.len()
        invariant
            0 <= t <= pv.len(),
            pvals_view(r@) =~= pvals_view(pv@).take(t as int),
        decreases pv.len() - t,
    {
        r.push(duplicate_value(&pv[t]));
        proof {
            assert(pvals_view(r@) =~= pvals_view(pv@).take(t + 1));
        }
        t += 1;
    }
    proof {
        assert(pvals_view(r@) =~= pvals_view(pv@));
    }
    r
}

/// The batch with all partition columns appended as constant columns.
pub open spec fn with_pcols(b: BatchModel, pcols: Seq<FieldModel>, pv: Seq<ValModel>) -> BatchModel
    decreases pcols.len(),
{
    if pcols.len() == 0 || pv.len() == 0 {
        b
    } else {
        with_pcols(batch_with_col(b, pcols[0], pv[0]), pcols.drop_first(), pv.drop_first())
    }
}

/// How many rows of a fresh batch the remaining budget lets through.
pub open spec fn take_count(rows: nat, budget: Option<nat>) -> nat {
    match budget {
        Option::None => rows,
        Option::Some(l) => if rows <= l {
            rows
        } else {
            l
        },
    }
}

/// The open file a stream is currently draining.
#[verifier::ext_equal]
pub struct CurModel {
    pub data: Seq<u8>,
    pub pos: int,
    pub pvals: Seq<ValModel>,
}

/// The sequence of batch results a partition stream still owes, given the
/// remaining files (from index `k`), the currently open file, the remaining
/// row budget, the target fields, the partition columns and the batch size.
///
/// One production step per unfolding: a zero budget ends the sequence; an
/// exhausted producer moves to the next file; an error is the final item; a
/// produced batch is truncated to the budget, gets the partition columns,
/// and is followed by the rest.
pub open spec fn stream_rest(
    files: Seq<FileModel>,
    k: int,
    cur: Option<CurModel>,
    budget: Option<nat>,
    fields: Seq<FieldModel>,
    pcols: Seq<FieldModel>,
    n: nat,
) -> Seq<Result<BatchModel, ScanError>>
    decreases
        2 * (files.len() - k) + (if cur is Some { 1int } else { 0 }),
        (match cur {
            Option::Some(c) => c.data.len() - c.pos,
            Option::None => 0int,
        }),
    when 0 <= k <= files.len() && n >= 1 && (cur matches Option::Some(c) ==> 0 <= c.pos
        <= c.data.len())
    via stream_rest_decreases
{
    if budget == Option::Some(0nat) {
        Seq::empty()
    } else {
        match cur {
            Option::None => if k >= files.len() {
                Seq::empty()
            } else {
                stream_rest(
                    files,
                    k + 1,
                    Option::Some(CurModel { data: files[k].data, pos: 0, pvals: files[k].pvals }),
                    budget,
                    fields,
                    pcols,
                    n,
                )
            },
            Option::Some(c) => {
                let st = produce_step(c.data, c.pos, fields, n);
                match st.item {
                    Option::None => stream_rest(files, k, Option::None, budget, fields, pcols, n),
                    Option::Some(Result::Err(e)) => seq![Result::Err(e)],
                    Option::Some(Result::Ok(b)) => {
                        let m = take_count(b.rows, budget);
                        let out = with_pcols(batch_take(b, m), pcols, c.pvals);
                        let nb = match budget {
                            Option::None => Option::<nat>::None,
                            Option::Some(l) => Option::Some((l - m) as nat),
                        };
                        seq![Result::Ok(out)] + stream_rest(
                            files,
                            k,
                            Option::Some(CurModel { data: c.data, pos: st.end, pvals: c.pvals }),
                            nb,
                            fields,
                            pcols,
                            n,
                        )
                    },
                }
            },
        }
    }
}

#[via_fn]
proof fn stream_rest_decreases(
    files: Seq<FileModel>,
    k: int,
    cur: Option<CurModel>,
    budget: Option<nat>,
    fields: Seq<FieldModel>,
    pcols: Seq<FieldModel>,
    n: nat,
) {
    if let Option::Some(c) = cur {
        let st = produce_step(c.data, c.pos, fields, n);
        if st.item matches Option::Some(r) && r is Ok {
            assert(!crate::producer::rest_blank(c.data, c.pos));
            crate::producer::lemma_chunk_advances(c.data, c.pos, n);
        }
    }
}

/// A finite, ordered, at-most-once-consumable sequence of batch results
/// bound to one file group.
#[derive(Debug)]
pub struct FileStream {
    /// The partition's files, visited in order.
    pub files: Vec<ScanFile>,
    /// Index of the next file to open.
    pub next_file: usize,
    /// The producer draining the currently open file, if one is open.
    pub producer: Option<JsonBatchReader>,
    /// Partition-column values of the currently open file.
    pub cur_pvals: Vec<JsonValue>,
    /// Remaining row budget; `None` means unlimited.
    pub remaining: Option<usize>,
    /// Target fields every produced file batch conforms to.
    pub fields: Vec<Field>,
    /// The partition columns appended to every emitted batch.
    pub pcols: Vec<Field>,
    /// Maximum number of records per batch.
    pub batch_size: usize,
    /// Set once the sequence has ended (exhaustion or fatal error).
    pub done: bool,
}

/// Whether a value list fits the partition columns: one matching value per
/// column.
pub open spec fn pvals_match(pv: Seq<ValModel>, pcols: Seq<FieldModel>) -> bool {
    pv.len() == pcols.len() && forall|j: int|
        0 <= j < pv.len() ==> val_matches(#[trigger] pv[j], pcols[j].ftype)
}

impl FileStream {
    pub open spec fn wf(&self) -> bool {
        &&& self.batch_size >= 1
        &&& self.next_file <= self.files.len()
        &&& match self.producer {
            Option::Some(p) => p.wf() && fields_model(p.fields@) == fields_model(self.fields@)
                && p.batch_size == self.batch_size
                && pvals_match(pvals_view(self.cur_pvals@), fields_model(self.pcols@)),
            Option::None => true,
        }
        &&& forall|i: int|
            self.next_file <= i < self.files.len()
                ==> pvals_match(
                (#[trigger] self.files@[i])@.pvals,
                fields_model(self.pcols@),
            )
    }

    /// The batch results this stream still owes.
    pub open spec fn model(&self) -> Seq<Result<BatchModel, ScanError>> {
        if self.done {
            Seq::empty()
        } else {
            stream_rest(
                files_view(self.files@),
                self.next_file as int,
                match self.producer {
                    Option::Some(p) => Option::Some(
                        CurModel {
                            data: p.data@,
                            pos: p.pos as int,
                            pvals: pvals_view(self.cur_pvals@),
                        },
                    ),
                    Option::None => Option::None,
                },
                match self.remaining {
                    Option::Some(l) => Option::Some(l as nat),
                    Option::None => Option::None,
                },
                fields_model(self.fields@),
                fields_model(self.pcols@),
                self.batch_size as nat,
            )
        }
    }

    /// A fresh stream over one file group.
    pub fn new(
        files: Vec<ScanFile>,
        fields: Vec<Field>,
        pcols: Vec<Field>,
        limit: Option<usize>,
        batch_size: usize,
    ) -> (r: FileStream)
        requires
            batch_size >= 1,
            forall|i: int|
                0 <= i < files.len() ==> pvals_match(
                    (#[trigger] files@[i])@.pvals,
                    fields_model(pcols@),
                ),
        ensures
            r.wf(),
            r.model() == stream_rest(
                files_view(files@),
                0,
                Option::None,
                match limit {
                    Option::Some(l) => Option::Some(l as nat),
                    Option::None => Option::None,
                },
                fields_model(fields@),
                fields_model(pcols@),
                batch_size as nat,
            ),
    {
        FileStream {
            files,
            next_file: 0,
            producer: Option::None,
            cur_pvals: Vec::new(),
            remaining: limit,
            fields,
            pcols,
            batch_size,
            done: false,
        }
    }

    /// One production step of the partition, as [`stream_rest`] defines the
    /// owed sequence: `None` marks the end, an error is final, and every
    /// emitted batch is the owed head.
    #[verifier::loop_isolation(false)]
    pub fn next(&mut self) -> (r: Option<Result<Batch, ScanError>>)
        requires
            old(self).wf(),
        ensures
            final(self).wf(),
            match r {
                Option::None => old(self).model() == Seq::<Result<BatchModel, ScanError>>::empty()
                    && final(self).model() == Seq::<Result<BatchModel, ScanError>>::empty(),
                Option::Some(Result::Ok(b)) => old(self).model() == seq![
                    Result::<BatchModel, ScanError>::Ok(b@),
                ] + final(self).model() && batch_wf(b@),
                Option::Some(Result::Err(e)) => old(self).model() == seq![
                    Result::<BatchModel, ScanError>::Err(e),
                ] && final(self).model() == Seq::<Result<BatchModel, ScanError>>::empty(),
            },
    {
        if self.done {
            return Option::None;
        }
        loop
            invariant
                self.wf(),
                !self.done,
                self.model() == old(self).model(),
                self.fields == old(self).fields,
            decreases
                2 * (self.files.len() - self.next_file) + (if self.producer is Some {
                    1int
                } else {
                    0
                }),
                (match self.producer {
                    Option::Some(p) => p.data@.len() - p.pos,
                    Option::None => 0int,
                }),
        {
            match self.remaining {
                Option::Some(l) => if l == 0 {
                    self.done = true;
                    return Option::None;
                },
                Option::None => {},
            }
            let is_open = self.producer.is_some();
            if !is_open {
                if self.next_file >= self.files.len() {
                    self.done = true;
                    return Option::None;
                }
                let f = &self.files[self.next_file];
                let data = copy_range(&f.contents, 0, f.contents.len());
                proof {
                    assert(data@ =~= f.contents@);
                }
                let pv = duplicate_values(&f.partition_values);
                let fields2 = duplicate_fields(&self.fields);
                let prod = JsonBatchReader::new(data, fields2, self.batch_size);
                self.producer = Option::Some(prod);
                self.cur_pvals = pv;
                self.next_file = self.next_file + 1;
                proof {
                    assert(files_view(self.files@)[self.next_file - 1]
                        == self.files@[self.next_file - 1]@);
                    assert(self.model() == old(self).model());
                }
            } else {
                let prod = self.producer.as_mut().unwrap();
                let ghost cur = CurModel {
                    data: prod.data@,
                    pos: prod.pos as int,
                    pvals: pvals_view(self.cur_pvals@),
                };
                let item = prod.next();
                match item {
                    Option::None => {
                        self.producer = Option::None;
                        proof {
                            assert(self.model() == old(self).model());
                        }
                    },
                    Option::Some(Result::Err(e)) => {
                        self.done = true;
                        proof {
                            assert(old(self).model() == seq![
                                Result::<BatchModel, ScanError>::Err(e),
                            ]);
                        }
                        return Option::Some(Result::Err(e));
                    },
                    Option::Some(Result::Ok(b)) => {
                        let rows = b.num_rows();
                        let m: usize = match self.remaining {
                            Option::Some(l) => if rows <= l {
                                rows
                            } else {
                                l
                            },
                            Option::None => rows,
                        };
                        let mut out = b.take_prefix(m);
                        let ghost pcolsm = fields_model(self.pcols@);
                        let ghost pvm = pvals_view(self.cur_pvals@);
                        let mut t: usize = 0;
                        let pcount = if self.pcols.len() <= self.cur_pvals.len() {
                            self.pcols.len()
                        } else {
                            self.cur_pvals.len()
                        };
                        proof {
                            assert(pcount == pcolsm.len());
                            assert(pcolsm.skip(0) =~= pcolsm);
                            assert(pvm.skip(0) =~= pvm);
                        }
                        while t < pcount
                            invariant
                                0 <= t <= pcount,
                                pcount == pcolsm.len(),
                                pcount <= self.pcols.len(),
                                pcount <= self.cur_pvals.len(),
                                batch_wf(out@),
                                with_pcols(out@, pcolsm.skip(t as int), pvm.skip(t as int))
                                    == with_pcols(batch_take(b@, m as nat), pcolsm, pvm),
                            decreases pcount - t,
                        {
                            proof {
                                assert(val_matches(pvm[t as int], pcolsm[t as int].ftype));
                                assert(pcolsm.skip(t as int)[0] == pcolsm[t as int]);
                                assert(pvm.skip(t as int)[0] == pvm[t as int]);
                            }
                            let ghost before = out@;
                            out.push_const_column(
                                &self.pcols[t],
                                &self.cur_pvals[t],
                            );
                            proof {
                                assert(pcolsm.skip(t as int).drop_first()
                                    =~= pcolsm.skip(t + 1));
                                assert(pvm.skip(t as int).drop_first() =~= pvm.skip(t + 1));
                                assert(with_pcols(before, pcolsm.skip(t as int), pvm.skip(t as int))
                                    == with_pcols(out@, pcolsm.skip(t + 1), pvm.skip(t + 1)));
                            }
                            t += 1;
                        }
                        proof {
                            assert(pcolsm.skip(pcount as int) =~= Seq::<FieldModel>::empty());
                            assert(pvm.skip(pcount as int) =~= pvm.skip(pcount as int));
                            assert(with_pcols(out@, pcolsm.skip(pcount as int), pvm.skip(
                                pcount as int)) == out@);
                            assert(out@ == with_pcols(batch_take(b@, m as nat), pcolsm, pvm));
                        }
                        match self.remaining {
                            Option::Some(l) => {
                                self.remaining = Option::Some(l - m);
                            },
                            Option::None => {},
                        }
                        proof {
                            assert(old(self).model() == seq![
                                Result::<BatchModel, ScanError>::Ok(out@),
                            ] + self.model());
                        }
                        return Option::Some(Result::Ok(out));
                    },
                }
            }
        }
    }

    /// Drains the stream: every batch it owes, in order, and the fatal
    /// error, if the sequence ends in one.
    #[verifier::loop_isolation(false)]
    pub fn run(&mut self) -> (r: (Vec<Batch>, Option<ScanError>))
        requires
            old(self).wf(),
        ensures
            final(self).wf(),
            old(self).model() == ok_results(r.0@) + (match r.1 {
                Option::Some(e) => seq![Result::<BatchModel, ScanError>::Err(e)],
                Option::None => Seq::<Result<BatchModel, ScanError>>::empty(),
            }),
            forall|i: int| 0 <= i < r.0@.len() ==> batch_wf((#[trigger] r.0@[i])@),
    {
        let mut batches: Vec<Batch> = Vec::new();
        let ghost m0 = self.model();
        loop
            invariant
                self.wf(),
                m0 == ok_results(batches@) + self.model(),
                forall|i: int| 0 <= i < batches@.len() ==> batch_wf((#[trigger] batches@[i])@),
            decreases self.model().len(),
        {
            match self.next() {
                Option::None => {
                    proof {
                        assert(ok_results(batches@)
                            + Seq::<Result<BatchModel, ScanError>>::empty()
                            =~= ok_results(batches@));
                    }
                    return (batches, Option::None);
                },
                Option::Some(Result::Ok(b)) => {
                    let ghost oldb = batches@;
                    let ghost bm = b@;
                    batches.push(b);
                    proof {
                        assert(ok_results(oldb)
                            + (seq![Result::<BatchModel, ScanError>::Ok(bm)] + self.model())
                            =~= ok_results(batches@) + self.model());
                    }
                },
                Option::Some(Result::Err(e)) => {
                    return (batches, Option::Some(e));
                },
            }
        }
    }
}

/// Appending partition columns preserves well-formedness and the row count,
/// and appends exactly the partition columns to the schema.
pub proof fn lemma_with_pcols(b: BatchModel, pcols: Seq<FieldModel>, pv: Seq<ValModel>)
    requires
        batch_wf(b),
        pvals_match(pv, pcols),
    ensures
        batch_wf(with_pcols(b, pcols, pv)),
        with_pcols(b, pcols, pv).schema == b.schema + pcols,
        with_pcols(b, pcols, pv).rows == b.rows,
    decreases pcols.len(),
{
    if pcols.len() == 0 {
        assert(b.schema + pcols =~= b.schema);
    } else {
        let b2 = batch_with_col(b, pcols[0], pv[0]);
        assert(val_matches(pv[0], pcols[0].ftype));
        assert(batch_wf(b2)) by {
            assert(forall|j: int|
                0 <= j < b2.cols.len() ==> (#[trigger] b2.cols[j]).len() == b2.rows);
        }
        assert(pvals_match(pv.drop_first(), pcols.drop_first()));
        lemma_with_pcols(b2, pcols.drop_first(), pv.drop_first());
        assert(b.schema.push(pcols[0]) + pcols.drop_first() =~= b.schema + pcols);
    }
}

/// Schema conformance: every batch the stream owes is well formed and its
/// schema is exactly the target fields followed by the partition columns —
/// whatever the input files contain.
pub proof fn lemma_schema_conformance(
    files: Seq<FileModel>,
    k: int,
    cur: Option<CurModel>,
    budget: Option<nat>,
    fields: Seq<FieldModel>,
    pcols: Seq<FieldModel>,
    n: nat,
)
    requires
        0 <= k <= files.len(),
        n >= 1,
        cur matches Option::Some(c) ==> 0 <= c.pos <= c.data.len() && pvals_match(c.pvals, pcols),
        forall|i: int| k <= i < files.len() ==> pvals_match((#[trigger] files[i]).pvals, pcols),
    ensures
        forall|i: int|
            0 <= i < stream_rest(files, k, cur, budget, fields, pcols, n).len()
                && (#[trigger] stream_rest(files, k, cur, budget, fields, pcols, n)[i]) is Ok
                ==> {
                let b = stream_rest(files, k, cur, budget, fields, pcols, n)[i]->Ok_0;
                batch_wf(b) && b.schema == fields + pcols
            },
    decreases
        2 * (files.len() - k) + (if cur is Some { 1int } else { 0 }),
        (match cur {
            Option::Some(c) => c.data.len() - c.pos,
            Option::None => 0int,
        }),
{
    let out = stream_rest(files, k, cur, budget, fields, pcols, n);
    if budget == Option::Some(0nat) {
    } else {
        match cur {
            Option::None => {
                if k < files.len() {
                    lemma_schema_conformance(
                        files,
                        k + 1,
                        Option::Some(
                            CurModel { data: files[k].data, pos: 0, pvals: files[k].pvals },
                        ),
                        budget,
                        fields,
                        pcols,
                        n,
                    );
                }
            },
            Option::Some(c) => {
                let st = produce_step(c.data, c.pos, fields, n);
                match st.item {
                    Option::None => {
                        lemma_schema_conformance(files, k, Option::None, budget, fields, pcols, n);
                    },
                    Option::Some(Result::Err(e)) => {},
                    Option::Some(Result::Ok(b)) => {
                        let m = take_count(b.rows, budget);
                        let out0 = with_pcols(batch_take(b, m), pcols, c.pvals);
                        assert(crate::materialize::rows_ok(
                            crate::producer::chunk_rows(c.data, c.pos, n).rows->Some_0,
                            fields,
                        ));
                        crate::materialize::lemma_mat_wf(
                            crate::producer::chunk_rows(c.data, c.pos, n).rows->Some_0,
                            fields,
                        );
                        crate::batch::lemma_batch_take_wf(b, m);
                        lemma_with_pcols(batch_take(b, m), pcols, c.pvals);
                        assert(batch_wf(out0) && out0.schema == fields + pcols);
                        assert(!crate::producer::rest_blank(c.data, c.pos));
                        crate::producer::lemma_chunk_advances(c.data, c.pos, n);
                        let nb = match budget {
                            Option::None => Option::<nat>::None,
                            Option::Some(l) => Option::Some((l - m) as nat),
                        };
                        lemma_schema_conformance(
                            files,
                            k,
                            Option::Some(CurModel { data: c.data, pos: st.end, pvals: c.pvals }),
                            nb,
                            fields,
                            pcols,
                            n,
                        );
                        let rest = stream_rest(
                            files,
                            k,
                            Option::Some(CurModel { data: c.data, pos: st.end, pvals: c.pvals }),
                            nb,
                            fields,
                            pcols,
                            n,
                        );
                        assert forall|i: int|
                            0 <= i < out.len() && (#[trigger] out[i]) is Ok implies {
                            let bb = out[i]->Ok_0;
                            batch_wf(bb) && bb.schema == fields + pcols
                        } by {
                            if i > 0 {
                                assert(out[i] == rest[i - 1]);
                            }
                        }
                    },
                }
            },
        }
    }
}

/// Total rows an owed sequence carries.
pub open spec fn out_rows(s: Seq<Result<BatchModel, ScanError>>) -> nat
    decreases s.len(),
{
    if s.len() == 0 {
        0
    } else {
        (match s[0] {
            Result::Ok(b) => b.rows,
            Result::Err(_) => 0,
        }) + out_rows(s.drop_first())
    }
}

proof fn lemma_out_rows_cons(h: Result<BatchModel, ScanError>, t: Seq<Result<BatchModel, ScanError>>)
    ensures
        out_rows(seq![h] + t) == (match h {
            Result::Ok(b) => b.rows,
            Result::Err(_) => 0nat,
        }) + out_rows(t),
{
    assert((seq![h] + t).drop_first() =~= t);
    assert((seq![h] + t)[0] == h);
}

/// Row-limit enforcement: with a budget of `l`, the stream emits exactly
/// the smaller of `l` and the rows the same scan would emit unlimited — the
/// rows available to this partition.
pub proof fn lemma_row_limit(
    files: Seq<FileModel>,
    k: int,
    cur: Option<CurModel>,
    l: nat,
    fields: Seq<FieldModel>,
    pcols: Seq<FieldModel>,
    n: nat,
)
    requires
        0 <= k <= files.len(),
        n >= 1,
        cur matches Option::Some(c) ==> 0 <= c.pos <= c.data.len() && pvals_match(c.pvals, pcols),
        forall|i: int| k <= i < files.len() ==> pvals_match((#[trigger] files[i]).pvals, pcols),
    ensures
        ({
            let lim = out_rows(stream_rest(files, k, cur, Option::Some(l), fields, pcols, n));
            let avail = out_rows(stream_rest(files, k, cur, Option::None, fields, pcols, n));
            lim == if avail <= l {
                avail
            } else {
                l
            }
        }),
    decreases
        2 * (files.len() - k) + (if cur is Some { 1int } else { 0 }),
        (match cur {
            Option::Some(c) => c.data.len() - c.pos,
            Option::None => 0int,
        }),
{
    let lim_s = stream_rest(files, k, cur, Option::Some(l), fields, pcols, n);
    let un_s = stream_rest(files, k, cur, Option::None, fields, pcols, n);
    if l == 0 {
        assert(lim_s =~= Seq::<Result<BatchModel, ScanError>>::empty());
    } else {
        match cur {
            Option::None => {
                if k >= files.len() {
                } else {
                    lemma_row_limit(
                        files,
                        k + 1,
                        Option::Some(
                            CurModel { data: files[k].data, pos: 0, pvals: files[k].pvals },
                        ),
                        l,
                        fields,
                        pcols,
                        n,
                    );
                }
            },
            Option::Some(c) => {
                let st = produce_step(c.data, c.pos, fields, n);
                match st.item {
                    Option::None => {
                        lemma_row_limit(files, k, Option::None, l, fields, pcols, n);
                    },
                    Option::Some(Result::Err(e)) => {
                        let empty = Seq::<Result<BatchModel, ScanError>>::empty();
                        assert(out_rows(empty) == 0);
                        lemma_out_rows_cons(Result::Err(e), empty);
                        assert(seq![Result::<BatchModel, ScanError>::Err(e)] + empty
                            =~= seq![Result::<BatchModel, ScanError>::Err(e)]);
                        assert(lim_s == seq![Result::<BatchModel, ScanError>::Err(e)]);
                        assert(un_s == seq![Result::<BatchModel, ScanError>::Err(e)]);
                        assert(out_rows(lim_s) == 0);
                        assert(out_rows(un_s) == 0);
                    },
                    Option::Some(Result::Ok(b)) => {
                        assert(!crate::producer::rest_blank(c.data, c.pos));
                        crate::producer::lemma_chunk_advances(c.data, c.pos, n);
                        let cur2 = CurModel { data: c.data, pos: st.end, pvals: c.pvals };
                        let m = take_count(b.rows, Option::Some(l));
                        assert(crate::materialize::rows_ok(
                            crate::producer::chunk_rows(c.data, c.pos, n).rows->Some_0,
                            fields,
                        ));
                        crate::materialize::lemma_mat_wf(
                            crate::producer::chunk_rows(c.data, c.pos, n).rows->Some_0,
                            fields,
                        );
                        crate::batch::lemma_batch_take_wf(b, m);
                        lemma_with_pcols(batch_take(b, m), pcols, c.pvals);
                        crate::batch::lemma_batch_take_wf(b, b.rows);
                        lemma_with_pcols(batch_take(b, b.rows), pcols, c.pvals);
                        lemma_row_limit(files, k, Option::Some(cur2), (l - m) as nat, fields,
                            pcols, n);
                        let lim_rest = stream_rest(files, k, Option::Some(cur2),
                            Option::Some((l - m) as nat), fields, pcols, n);
                        let un_rest = stream_rest(files, k, Option::Some(cur2), Option::None,
                            fields, pcols, n);
                        lemma_out_rows_cons(
                            Result::Ok(with_pcols(batch_take(b, m), pcols, c.pvals)),
                            lim_rest,
                        );
                        lemma_out_rows_cons(
                            Result::Ok(with_pcols(batch_take(b, b.rows), pcols, c.pvals)),
                            un_rest,
                        );
                    },
                }
            },
        }
    }
}

/// Fail-fast on malformation: a failed result can only be the final item of
/// the owed sequence — every earlier item is a batch.
pub proof fn lemma_fail_fast(
    files: Seq<FileModel>,
    k: int,
    cur: Option<CurModel>,
    budget: Option<nat>,
    fields: Seq<FieldModel>,
    pcols: Seq<FieldModel>,
    n: nat,
)
    requires
        0 <= k <= files.len(),
        n >= 1,
        cur matches Option::Some(c) ==> 0 <= c.pos <= c.data.len(),
    ensures
        forall|i: int|
            0 <= i < stream_rest(files, k, cur, budget, fields, pcols, n).len() - 1
                ==> (#[trigger] stream_rest(files, k, cur, budget, fields, pcols, n)[i]) is Ok,
    decreases
        2 * (files.len() - k) + (if cur is Some { 1int } else { 0 }),
        (match cur {
            Option::Some(c) => c.data.len() - c.pos,
            Option::None => 0int,
        }),
{
    let out = stream_rest(files, k, cur, budget, fields, pcols, n);
    if budget == Option::Some(0nat) {
    } else {
        match cur {
            Option::None => {
                if k < files.len() {
                    lemma_fail_fast(
                        files,
                        k + 1,
                        Option::Some(
                            CurModel { data: files[k].data, pos: 0, pvals: files[k].pvals },
                        ),
                        budget,
                        fields,
                        pcols,
                        n,
                    );
                }
            },
            Option::Some(c) => {
                let st = produce_step(c.data, c.pos, fields, n);
                match st.item {
                    Option::None => {
                        lemma_fail_fast(files, k, Option::None, budget, fields, pcols, n);
                    },
                    Option::Some(Result::Err(e)) => {},
                    Option::Some(Result::Ok(b)) => {
                        assert(!crate::producer::rest_blank(c.data, c.pos));
                        crate::producer::lemma_chunk_advances(c.data, c.pos, n);
                        let m = take_count(b.rows, budget);
                        let nb = match budget {
                            Option::None => Option::<nat>::None,
                            Option::Some(l) => Option::Some((l - m) as nat),
                        };
                        let cur2 = CurModel { data: c.data, pos: st.end, pvals: c.pvals };
                        lemma_fail_fast(files, k, Option::Some(cur2), nb, fields, pcols, n);
                        let rest = stream_rest(files, k, Option::Some(cur2), nb, fields, pcols, n);
                        assert forall|i: int| 0 <= i < out.len() - 1 implies (#[trigger] out[i])
                            is Ok by {
                            if i > 0 {
                                assert(out[i] == rest[i - 1]);
                            }
                        }
                    },
                }
            },
        }
    }
}

/// Partition independence: what a partition's stream owes is a function of
/// that partition's own file group and the shared immutable configuration
/// alone — equal inputs give equal owed sequences, however many sibling
/// partitions run beside it.
pub proof fn lemma_partition_independence(
    files1: Seq<FileModel>,
    files2: Seq<FileModel>,
    budget: Option<nat>,
    fields: Seq<FieldModel>,
    pcols: Seq<FieldModel>,
    n: nat,
)
    requires
        files1 == files2,
    ensures
        stream_rest(files1, 0, Option::None, budget, fields, pcols, n) == stream_rest(
            files2,
            0,
            Option::None,
            budget,
            fields,
            pcols,
            n,
        ),
{
}

} // verus!

//! The scan plan node and its configuration.
//!
//! The node owns the scan configuration — file groups, file schema, optional
//! projection, row limit, partition columns, statistics — and derives the
//! projected output schema and statistics once, at construction. For each
//! partition index it produces a partition stream over that file group.

use vstd::prelude::*;

use crate::ScanError;
use crate::batch::duplicate_field;
use crate::batch::duplicate_fields;
use crate::schema::Field;
use crate::schema::FieldModel;
use crate::schema::JsonValue;
use crate::schema::Schema;
use crate::schema::field_index;
use crate::schema::fields_model;
use crate::schema::lemma_field_index;
use crate::stream::FileModel;
use crate::stream::FileStream;
use crate::stream::ScanFile;
use crate::stream::duplicate_values;
use crate::stream::files_view;
use crate::stream::pvals_match;
use crate::stream::pvals_view;
use crate::stream::stream_rest;

verus! {

broadcast use vstd::prelude::Seq::lemma_push_map_commute, vstd::prelude::Seq::lemma_map_take_succ;

/// Best-effort statistics of one column.
#[derive(Clone, Copy, Debug, PartialEq, Eq)]
pub struct ColumnStatistics {
    pub null_count: Option<usize>,
    pub distinct_count: Option<usize>,
}

/// Best-effort statistics of a scan: row and byte counts and per-column
/// counts, any of which may be unknown.
#[derive(Clone, Debug, PartialEq, Eq)]
pub struct Statistics {
    pub num_rows: Option<usize>,
    pub total_byte_size: Option<usize>,
    pub column_statistics: Option<Vec<ColumnStatistics>>,
    pub is_exact: bool,
}

/// Model of [`Statistics`].
#[verifier::ext_equal]
pub struct StatsModel {
    pub num_rows: Option<usize>,
    pub total_byte_size: Option<usize>,
    pub column_statistics: Option<Seq<ColumnStatistics>>,
    pub is_exact: bool,
}

impl View for Statistics {
    type V = StatsModel;

    open spec fn view(&self) -> StatsModel {
        StatsModel {
            num_rows: self.num_rows,
            total_byte_size: self.total_byte_size,
            column_statistics: match self.column_statistics {
                Option::Some(cs) => Option::Some(cs@),
                Option::None => Option::None,
            },
            is_exact: self.is_exact,
        }
    }
}

impl Statistics {
    /// Statistics in which nothing is known.
    pub fn unknown() -> (r: Statistics)
        ensures
            r@ == (StatsModel {
                num_rows: Option::None,
                total_byte_size: Option::None,
                column_statistics: Option::None,
                is_exact: false,
            }),
    {
        Statistics {
            num_rows: Option::None,
            total_byte_size: Option::None,
            column_statistics: Option::None,
            is_exact: false,
        }
    }
}

/// One file of the scan: its identifier, as the store capability resolves
/// it, and the values the partition columns take for it.
#[derive(Clone, Debug, PartialEq, Eq)]
pub struct FileDesc {
    pub path: Vec<u8>,
    pub partition_values: Vec<JsonValue>,
}

/// The immutable scan configuration a plan node owns.
#[derive(Debug)]
pub struct FileScanConfig {
    /// Ordered file groups: the outer index is the partition.
    pub file_groups: Vec<Vec<FileDesc>>,
    /// The full schema the table is declared to have.
    pub file_schema: Schema,
    /// Optional column projection: indices into the file schema.
    pub projection: Option<Vec<usize>>,
    /// Best-effort statistics of the unprojected schema.
    pub statistics: Statistics,
    /// Optional cap on total rows returned per partition.
    pub limit: Option<usize>,
    /// Columns whose constant values are supplied per file, not read from
    /// file bytes.
    pub table_partition_cols: Vec<Field>,
}

impl FileScanConfig {
    /// Configuration invariant: projection indices are valid indices into
    /// the file schema, and every file supplies one matching value per
    /// partition column.
    pub open spec fn wf(&self) -> bool {
        &&& (self.projection matches Option::Some(p) ==> forall|i: int|
            0 <= i < p@.len() ==> (#[trigger] p@[i]) < self.file_schema@.len())
        &&& forall|g: int, i: int|
            0 <= g < self.file_groups@.len() && 0 <= i < self.file_groups@[g]@.len()
                ==> pvals_match(
                (#[trigger] self.file_groups@[g]@[i]).partition_values@.map_values(
                    |v: JsonValue| v@,
                ),
                fields_model(self.table_partition_cols@),
            )
    }

    /// The file-schema fields the projection retains, in projection order.
    pub open spec fn projected_fields(&self) -> Seq<FieldModel> {
        match self.projection {
            Option::None => self.file_schema@,
            Option::Some(p) => Seq::new(p@.len(), |i: int| self.file_schema@[p@[i] as int]),
        }
    }

    /// The output fields: the projected file fields with the partition
    /// columns appended.
    pub open spec fn output_fields(&self) -> Seq<FieldModel> {
        self.projected_fields() + fields_model(self.table_partition_cols@)
    }

    /// The projected statistics: row count kept, byte size kept only when
    /// nothing is projected away, per-column statistics restricted to the
    /// retained columns, partition columns unknown.
    pub open spec fn projected_stats(&self) -> StatsModel {
        let unknown = ColumnStatistics { null_count: Option::None, distinct_count: Option::None };
        let pad = Seq::new(
            self.table_partition_cols@.len(),
            |i: int| unknown,
        );
        StatsModel {
            num_rows: self.statistics.num_rows,
            total_byte_size: match self.projection {
                Option::None => self.statistics.total_byte_size,
                Option::Some(_) => Option::None,
            },
            column_statistics: match self.statistics.column_statistics {
                Option::None => Option::None,
                Option::Some(cs) => if cs@.len() == self.file_schema@.len() {
                    Option::Some(
                        (match self.projection {
                            Option::None => cs@,
                            Option::Some(p) => Seq::new(
                                p@.len(),
                                |i: int| cs@[p@[i] as int],
                            ),
                        }) + pad,
                    )
                } else {
                    Option::None
                },
            },
            is_exact: self.statistics.is_exact,
        }
    }

    /// The retained file fields as a field list.
    #[verifier::loop_isolation(false)]
    pub fn projected_file_fields(&self) -> (r: Vec<Field>)
        requires
            self.wf(),
        ensures
            fields_model(r@) == self.projected_fields(),
    {
        match &self.projection {
            Option::None => {
                let r = duplicate_fields(&self.file_schema.fields);
                proof {
                    assert(fields_model(r@) =~= self.projected_fields());
                }
                r
            },
            Option::Some(p) => {
                let mut r: Vec<Field> = Vec::new();
                let mut t: usize = 0;
                while t < p.len()
                    invariant
                        0 <= t <= p.len(),
                        self.wf(),
                        p == self.projection->Some_0,
                        fields_model(r@) =~= self.projected_fields().take(t as int),
                    decreases p.len() - t,
                {
                    r.push(duplicate_field(&self.file_schema.fields[p[t]]));
                    proof {
                        assert(fields_model(r@) =~= self.projected_fields().take(t + 1));
                    }
                    t += 1;
                }
                proof {
                    assert(fields_model(r@) =~= self.projected_fields());
                }
                r
            },
        }
    }

    /// The names of the retained file columns, or `None` when everything is
    /// retained — never including partition-column names, which are
    /// synthesized, not read.
    #[verifier::loop_isolation(false)]
    pub fn projected_file_column_names(&self) -> (r: Option<Vec<Vec<u8>>>)
        requires
            self.wf(),
        ensures
            match r {
                Option::None => self.projection is None,
                Option::Some(names) => self.projection is Some && names@.len()
                    == self.projected_fields().len() && forall|i: int|
                    0 <= i < names@.len() ==> (#[trigger] names@[i])@
                        == self.projected_fields()[i].name,
            },
    {
        match &self.projection {
            Option::None => Option::None,
            Option::Some(p) => {
                let mut names: Vec<Vec<u8>> = Vec::new();
                let mut t: usize = 0;
                while t < p.len()
                    invariant
                        0 <= t <= p.len(),
                        self.wf(),
                        p == self.projection->Some_0,
                        names@.len() == t,
                        forall|i: int|
                            0 <= i < t ==> (#[trigger] names@[i])@
                                == self.projected_fields()[i].name,
                    decreases p.len() - t,
                {
                    names.push(self.file_schema.fields[p[t]].name.clone());
                    t += 1;
                }
                Option::Some(names)
            },
        }
    }

    /// Computes, once, the projected output schema and statistics.
    #[verifier::loop_isolation(false)]
    pub fn project(&self) -> (r: (Schema, Statistics))
        requires
            self.wf(),
        ensures
            r.0@ == self.output_fields(),
            r.1@ == self.projected_stats(),
    {
        let mut fields = self.projected_file_fields();
        let mut t: usize = 0;
        while t < self.table_partition_cols.len()
            invariant
                0 <= t <= self.table_partition_cols.len(),
                fields_model(fields@) =~= self.projected_fields() + fields_model(
                    self.table_partition_cols@,
                ).take(t as int),
            decreases self.table_partition_cols.len() - t,
        {
            fields.push(duplicate_field(&self.table_partition_cols[t]));
            proof {
                assert(fields_model(fields@) =~= self.projected_fields() + fields_model(
                    self.table_partition_cols@,
                ).take(t + 1));
            }
            t += 1;
        }
        proof {
            assert(fields_model(fields@) =~= self.output_fields());
        }
        let stats = self.project_statistics();
        (Schema { fields }, stats)
    }

    /// The projected statistics alone, as [`Self::projected_stats`] defines
    /// them.
    #[verifier::loop_isolation(false)]
    fn project_statistics(&self) -> (r: Statistics)
        requires
            self.wf(),
        ensures
            r@ == self.projected_stats(),
    {
        let cols: Option<Vec<ColumnStatistics>> = match &self.statistics.column_statistics {
            Option::None => Option::None,
            Option::Some(cs) => {
                if cs.len() != self.file_schema.fields.len() {
                    Option::None
                } else {
                    let mut out: Vec<ColumnStatistics> = Vec::new();
                    match &self.projection {
                        Option::None => {
                            let mut t: usize = 0;
                            while t < cs.len()
                                invariant
                                    0 <= t <= cs.len(),
                                    out@ =~= cs@.take(t as int),
                                decreases cs.len() - t,
                            {
                                out.push(cs[t]);
                                proof {
                                    assert(out@ =~= cs@.take(t + 1));
                                }
                                t += 1;
                            }
                            proof {
                                assert(out@ =~= cs@);
                            }
                        },
                        Option::Some(p) => {
                            let mut t: usize = 0;
                            while t < p.len()
                                invariant
                                    0 <= t <= p.len(),
                                    out@ =~= Seq::new(
                                        t as nat,
                                        |i: int| cs@[p@[i] as int],
                                    ),
                                decreases p.len() - t,
                            {
                                out.push(cs[p[t]]);
                                proof {
                                    assert(out@ =~= Seq::new(
                                        (t + 1) as nat,
                                        |i: int| cs@[p@[i] as int],
                                    ));
                                }
                                t += 1;
                            }
                        },
                    }
                    let mut t: usize = 0;
                    let ghost base = out@;
                    while t < self.table_partition_cols.len()
                        invariant
                            0 <= t <= self.table_partition_cols.len(),
                            out@ =~= base + Seq::new(
                                t as nat,
                                |i: int| ColumnStatistics {
                                    null_count: Option::None,
                                    distinct_count: Option::None,
                                },
                            ),
                        decreases self.table_partition_cols.len() - t,
                    {
                        out.push(ColumnStatistics {
                            null_count: Option::None,
                            distinct_count: Option::None,
                        });
                        proof {
                            assert(out@ =~= base + Seq::new(
                                (t + 1) as nat,
                                |i: int| ColumnStatistics {
                                    null_count: Option::None,
                                    distinct_count: Option::None,
                                },
                            ));
                        }
                        t += 1;
                    }
                    Option::Some(out)
                }
            },
        };
        let r = Statistics {
            num_rows: self.statistics.num_rows,
            total_byte_size: match &self.projection {
                Option::None => self.statistics.total_byte_size,
                Option::Some(_) => Option::None,
            },
            column_statistics: cols,
            is_exact: self.statistics.is_exact,
        };
        proof {
            assert(r@ =~= self.projected_stats());
        }
        r
    }
}

/// How a node's output is split into independent partitions.
#[derive(Clone, Copy, Debug, PartialEq, Eq, Structural)]
pub enum Partitioning {
    /// Independent partitions with no defined relative row ordering.
    UnknownPartitioning(usize),
}

/// One column of a sort order.
#[derive(Clone, Copy, Debug, PartialEq, Eq, Structural)]
pub struct SortKey {
    pub column: usize,
    pub descending: bool,
}

/// Execution plan node for scanning line-delimited self-describing records.
#[derive(Debug)]
pub struct NdJsonExec {
    pub base_config: FileScanConfig,
    pub projected_schema: Schema,
    pub projected_statistics: Statistics,
}

/// Models of a partition's files, pairing each file's bytes with its
/// descriptor's partition-column values.
pub open spec fn partition_files_model(group: Seq<FileDesc>, contents: Seq<Vec<u8>>) -> Seq<
    FileModel,
> {
    Seq::new(
        group.len() as nat,
        |i: int| FileModel {
            data: contents[i]@,
            pvals: pvals_view(group[i].partition_values@),
        },
    )
}

impl NdJsonExec {
    /// The node's invariant: its configuration is well formed and its
    /// projected schema and statistics are the ones the configuration
    /// derives.
    pub open spec fn wf(&self) -> bool {
        &&& self.base_config.wf()
        &&& self.projected_schema@ == self.base_config.output_fields()
        &&& self.projected_statistics@ == self.base_config.projected_stats()
    }

    /// A new scan node: derives the projected schema and statistics once.
    pub fn new(base_config: FileScanConfig) -> (r: NdJsonExec)
        requires
            base_config.wf(),
        ensures
            r.wf(),
            r.base_config == base_config,
    {
        let (projected_schema, projected_statistics) = base_config.project();
        NdJsonExec { base_config, projected_schema, projected_statistics }
    }

    /// The projected output schema (pure; derived once at construction).
    pub fn schema(&self) -> (r: Schema)
        requires
            self.wf(),
        ensures
            r@ == self.base_config.output_fields(),
    {
        let r = Schema { fields: duplicate_fields(&self.projected_schema.fields) };
        proof {
            assert(r@ =~= self.projected_schema@);
        }
        r
    }

    /// One independent partition per file group, with no defined relative
    /// row ordering among partitions.
    pub fn output_partitioning(&self) -> (r: Partitioning)
        ensures
            r == Partitioning::UnknownPartitioning(self.base_config.file_groups@.len() as usize),
    {
        Partitioning::UnknownPartitioning(self.base_config.file_groups.len())
    }

    /// Row order within and across files is not guaranteed sorted.
    pub fn output_ordering(&self) -> (r: Option<Vec<SortKey>>)
        ensures
            r is None,
    {
        Option::None
    }

    pub fn relies_on_input_order(&self) -> (r: bool)
        ensures
            !r,
    {
        false
    }

    /// A leaf node: no upstream execution dependency.
    pub fn children(&self) -> (r: Vec<NdJsonExec>)
        ensures
            r@.len() == 0,
    {
        Vec::new()
    }

    /// Succeeds, with an equivalent node, only on an empty children list: a
    /// leaf node cannot adopt children.
    pub fn with_new_children(self, children: Vec<NdJsonExec>) -> (r: Result<NdJsonExec, ScanError>)
        ensures
            match r {
                Result::Ok(node) => children@.len() == 0 && node == self,
                Result::Err(e) => children@.len() > 0 && e == ScanError::LeafNode,
            },
    {
        if children.len() == 0 {
            Result::Ok(self)
        } else {
            Result::Err(ScanError::LeafNode)
        }
    }

    /// The precomputed projected statistics; never re-scans files.
    pub fn statistics(&self) -> (r: &Statistics)
        requires
            self.wf(),
        ensures
            r@ == self.base_config.projected_stats(),
    {
        &self.projected_statistics
    }

    /// The file group of one partition; fails with an out-of-range error on
    /// an invalid partition index.
    pub fn file_group(&self, partition: usize) -> (r: Result<&Vec<FileDesc>, ScanError>)
        ensures
            match r {
                Result::Ok(g) => partition < self.base_config.file_groups@.len() && g
                    == &self.base_config.file_groups[partition as int],
                Result::Err(e) => partition >= self.base_config.file_groups@.len() && e
                    == ScanError::InvalidPartition,
            },
    {
        if partition < self.base_config.file_groups.len() {
            Result::Ok(&self.base_config.file_groups[partition])
        } else {
            Result::Err(ScanError::InvalidPartition)
        }
    }

    /// A live partition stream bound to one file group, handed the group's
    /// file contents in order; fails with an out-of-range error on an
    /// invalid partition index.
    ///
    /// The stream owes exactly the sequence [`stream_rest`] defines over
    /// this partition's files, the projected fields, the partition columns,
    /// the row limit and the batch size.
    #[verifier::loop_isolation(false)]
    pub fn execute(&self, partition: usize, batch_size: usize, contents: Vec<Vec<u8>>) -> (r:
        Result<FileStream, ScanError>)
        requires
            self.wf(),
            batch_size >= 1,
            partition < self.base_config.file_groups@.len() ==> contents@.len()
                == self.base_config.file_groups@[partition as int]@.len(),
        ensures
            match r {
                Result::Ok(st) => partition < self.base_config.file_groups@.len() && st.wf()
                    && st.model() == stream_rest(
                    partition_files_model(
                        self.base_config.file_groups@[partition as int]@,
                        contents@,
                    ),
                    0,
                    Option::None,
                    match self.base_config.limit {
                        Option::Some(l) => Option::Some(l as nat),
                        Option::None => Option::None,
                    },
                    self.base_config.projected_fields(),
                    fields_model(self.base_config.table_partition_cols@),
                    batch_size as nat,
                ),
                Result::Err(e) => partition >= self.base_config.file_groups@.len() && e
                    == ScanError::InvalidPartition,
            },
    {
        if partition >= self.base_config.file_groups.len() {
            return Result::Err(ScanError::InvalidPartition);
        }
        let group = &self.base_config.file_groups[partition];
        let ghost groupm = group@;
        let fields = self.base_config.projected_file_fields();
        let pcols = duplicate_fields(&self.base_config.table_partition_cols);
        let mut cs = contents;
        let ghost contentsm = cs@;
        let mut files: Vec<ScanFile> = Vec::new();
        let mut i: usize = 0;
        while i < group.len()
            invariant
                0 <= i <= group.len(),
                i == files.len(),
                cs@ =~= contentsm.skip(i as int),
                files_view(files@) =~= partition_files_model(groupm, contentsm).take(i as int),
                forall|t: int|
                    0 <= t < files@.len() ==> pvals_match(
                        (#[trigger] files@[t])@.pvals,
                        fields_model(pcols@),
                    ),
            decreases group.len() - i,
        {
            let data = cs.remove(0);
            proof {
                assert(cs@ =~= contentsm.skip(i + 1));
                assert(data@ == contentsm.skip(i as int)[0]@);
            }
            let pv = duplicate_values(&group[i].partition_values);
            files.push(ScanFile { contents: data, partition_values: pv });
            proof {
                assert(files@.last()@ =~= partition_files_model(groupm, contentsm)[i as int]);
                assert(files_view(files@) =~= partition_files_model(groupm, contentsm).take(
                    i + 1));
            }
            i += 1;
        }
        proof {
            assert(files_view(files@) =~= partition_files_model(groupm, contentsm));
        }
        let st = FileStream::new(files, fields, pcols, self.base_config.limit, batch_size);
        Result::Ok(st)
    }
}

/// A name carried by no field is not found.
pub proof fn lemma_name_not_found(fields: Seq<FieldModel>, name: Seq<u8>)
    requires
        forall|i: int| 0 <= i < fields.len() ==> (#[trigger] fields[i]).name != name,
    ensures
        field_index(fields, name) is None,
{
    lemma_field_index(fields, name);
}

/// Projection correctness: with a projection, the output schema holds
/// exactly the selected file fields, in the selected order, followed by the
/// partition columns; a name that neither a selected field nor a partition
/// column carries is not found in the output schema.
pub proof fn lemma_projection_correctness(cfg: FileScanConfig, name: Seq<u8>)
    requires
        cfg.wf(),
        cfg.projection is Some,
        forall|i: int|
            0 <= i < cfg.projection->Some_0@.len()
                ==> (#[trigger] cfg.file_schema@[cfg.projection->Some_0@[i] as int]).name != name,
        forall|i: int|
            0 <= i < cfg.table_partition_cols@.len()
                ==> (#[trigger] fields_model(cfg.table_partition_cols@)[i]).name != name,
    ensures
        cfg.output_fields().len() == cfg.projection->Some_0@.len()
            + cfg.table_partition_cols@.len(),
        forall|i: int|
            0 <= i < cfg.projection->Some_0@.len() ==> #[trigger] cfg.output_fields()[i]
                == cfg.file_schema@[cfg.projection->Some_0@[i] as int],
        field_index(cfg.output_fields(), name) is None,
{
    let out = cfg.output_fields();
    let p = cfg.projection->Some_0@;
    assert forall|i: int| 0 <= i < out.len() implies (#[trigger] out[i]).name != name by {
        if i < p.len() {
            assert(out[i] == cfg.file_schema@[p[i] as int]);
        } else {
            assert(out[i] == fields_model(cfg.table_partition_cols@)[i - p.len()]);
        }
    }
    lemma_name_not_found(out, name);
}

} // verus!

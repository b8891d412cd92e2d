//! The pipeline compiler: recognized options become an ordered stage
//! sequence with the fixed precedence filter, select, drop, sort, dedup,
//! slice. No stage is emitted for an absent option.

use vstd::prelude::*;
use crate::options::Options;
use crate::table::clone_names;

verus! {

/// One transformation step handed to the executing engine.
#[derive(Debug)]
pub enum Stage {
    /// Keep rows satisfying a predicate; the text is opaque here and parsed
    /// by the engine.
    Filter { predicate: String },
    /// Keep only these columns, in this order.
    Select { columns: Vec<String> },
    /// Remove these columns.
    Drop { columns: Vec<String> },
    /// Order rows by these keys.
    Sort { keys: Vec<String>, descending: bool, fold_case: bool },
    /// Remove rows repeating an earlier row, over all columns or a subset.
    Dedup { subset: Option<Vec<String>> },
    /// Keep a row window; a negative offset counts from the end, a `None`
    /// length means all remaining rows.
    Slice { offset: i64, length: Option<usize> },
}

/// The mathematical value of one stage.
pub enum StageV {
    Filter { predicate: Seq<char> },
    Select { columns: Seq<Seq<char>> },
    Drop { columns: Seq<Seq<char>> },
    Sort { keys: Seq<Seq<char>>, descending: bool, fold_case: bool },
    Dedup { subset: Option<Seq<Seq<char>>> },
    Slice { offset: int, length: Option<int> },
}

impl View for Stage {
    type V = StageV;

    open spec fn view(&self) -> StageV {
        match self {
            Stage::Filter { predicate } => StageV::Filter { predicate: predicate@ },
            Stage::Select { columns } => StageV::Select { columns: columns.deep_view() },
            Stage::Drop { columns } => StageV::Drop { columns: columns.deep_view() },
            Stage::Sort { keys, descending, fold_case } => StageV::Sort {
                keys: keys.deep_view(),
                descending: *descending,
                fold_case: *fold_case,
            },
            Stage::Dedup { subset } => StageV::Dedup {
                subset: match subset {
                    Some(cols) => Some(cols.deep_view()),
                    None => None,
                },
            },
            Stage::Slice { offset, length } => StageV::Slice {
                offset: *offset as int,
                length: match length {
                    Some(l) => Some(*l as int),
                    None => None,
                },
            },
        }
    }
}

impl DeepView for Stage {
    type V = StageV;

    open spec fn deep_view(&self) -> StageV {
        self.view()
    }
}

/// The filter part of the compiled sequence: one stage if a predicate was
/// given.
pub open spec fn spec_filter_stages(o: Options) -> Seq<StageV> {
    if o.filter is Some {
        seq![StageV::Filter { predicate: o.filter->0@ }]
    } else {
        seq![]
    }
}

/// The include-projection part: one stage if a selection was given.
pub open spec fn spec_select_stages(o: Options) -> Seq<StageV> {
    if o.select is Some {
        seq![StageV::Select { columns: o.select->0.deep_view() }]
    } else {
        seq![]
    }
}

/// The exclude-projection part: one stage if a drop list was given.
pub open spec fn spec_drop_stages(o: Options) -> Seq<StageV> {
    if o.drop is Some {
        seq![StageV::Drop { columns: o.drop->0.deep_view() }]
    } else {
        seq![]
    }
}

/// The sort part: one stage if sort keys were given; the direction and the
/// case fold apply uniformly to all keys.
pub open spec fn spec_sort_stages(o: Options) -> Seq<StageV> {
    if o.sort_keys@.len() > 0 {
        seq![
            StageV::Sort {
                keys: o.sort_keys.deep_view(),
                descending: o.reverse,
                fold_case: o.ignore_case,
            },
        ]
    } else {
        seq![]
    }
}

/// The dedup part: a subset scope wins over the whole-row flag.
pub open spec fn spec_dedup_stages(o: Options) -> Seq<StageV> {
    if o.unique_on is Some {
        seq![StageV::Dedup { subset: Some(o.unique_on->0.deep_view()) }]
    } else if o.unique {
        seq![StageV::Dedup { subset: None }]
    } else {
        seq![]
    }
}

/// The slice part: offset and limit combine into one stage; an absent
/// offset starts at the front, an absent limit means all remaining rows.
pub open spec fn spec_slice_stages(o: Options) -> Seq<StageV> {
    if o.offset is Some || o.limit is Some {
        seq![
            StageV::Slice {
                offset: if o.offset is Some {
                    o.offset->0 as int
                } else {
                    0
                },
                length: if o.limit is Some {
                    Some(o.limit->0 as int)
                } else {
                    None
                },
            },
        ]
    } else {
        seq![]
    }
}

/// The full compiled sequence, in the fixed stage order.
pub open spec fn spec_compile(o: Options) -> Seq<StageV> {
    spec_filter_stages(o) + spec_select_stages(o) + spec_drop_stages(o) + spec_sort_stages(o)
        + spec_dedup_stages(o) + spec_slice_stages(o)
}

/// The fixed precedence of a stage kind within the pipeline.
pub open spec fn spec_stage_rank(s: StageV) -> int {
    match s {
        StageV::Filter { .. } => 0,
        StageV::Select { .. } => 1,
        StageV::Drop { .. } => 2,
        StageV::Sort { .. } => 3,
        StageV::Dedup { .. } => 4,
        StageV::Slice { .. } => 5,
    }
}

/// Turn the recognized options into the ordered stage sequence.
#[verifier::rlimit(100)]
pub fn compile_pipeline(o: &Options) -> (r: Vec<Stage>)
    ensures
        r.deep_view() == spec_compile(*o),
{
    let mut r: Vec<Stage> = Vec::new();
    if let Some(p) = &o.filter {
        let ghost dv = r.deep_view();
        r.push(Stage::Filter { predicate: p.clone() });
        proof {
            assert(r.deep_view() =~= dv.push(StageV::Filter { predicate: p@ }));
        }
    }
    proof {
        assert(r.deep_view() =~= spec_filter_stages(*o));
    }
    if let Some(cols) = &o.select {
        let ghost dv = r.deep_view();
        r.push(Stage::Select { columns: clone_names(cols) });
        proof {
            assert(r.deep_view() =~= dv.push(StageV::Select { columns: cols.deep_view() }));
        }
    }
    proof {
        assert(r.deep_view() =~= spec_filter_stages(*o) + spec_select_stages(*o));
    }
    if let Some(cols) = &o.drop {
        let ghost dv = r.deep_view();
        r.push(Stage::Drop { columns: clone_names(cols) });
        proof {
            assert(r.deep_view() =~= dv.push(StageV::Drop { columns: cols.deep_view() }));
        }
    }
    proof {
        assert(r.deep_view() =~= spec_filter_stages(*o) + spec_select_stages(*o)
            + spec_drop_stages(*o));
    }
    if o.sort_keys.len() > 0 {
        let ghost dv = r.deep_view();
        r.push(
            Stage::Sort {
                keys: clone_names(&o.sort_keys),
                descending: o.reverse,
                fold_case: o.ignore_case,
            },
        );
        proof {
            assert(r.deep_view() =~= dv.push(
                StageV::Sort {
                    keys: o.sort_keys.deep_view(),
                    descending: o.reverse,
                    fold_case: o.ignore_case,
                },
            ));
        }
    }
    proof {
        assert(r.deep_view() =~= spec_filter_stages(*o) + spec_select_stages(*o)
            + spec_drop_stages(*o) + spec_sort_stages(*o));
    }
    if let Some(cols) = &o.unique_on {
        let ghost dv = r.deep_view();
        r.push(Stage::Dedup { subset: Some(clone_names(cols)) });
        proof {
            assert(r.deep_view() =~= dv.push(StageV::Dedup { subset: Some(cols.deep_view()) }));
        }
    } else if o.unique {
        let ghost dv = r.deep_view();
        r.push(Stage::Dedup { subset: None });
        proof {
            assert(r.deep_view() =~= dv.push(StageV::Dedup { subset: None }));
        }
    }
    proof {
        assert(r.deep_view() =~= spec_filter_stages(*o) + spec_select_stages(*o)
            + spec_drop_stages(*o) + spec_sort_stages(*o) + spec_dedup_stages(*o));
    }
    if o.offset.is_some() || o.limit.is_some() {
        let off: i64 = match &o.offset {
            Some(v) => *v,
            None => 0,
        };
        let len: Option<usize> = match &o.limit {
            Some(l) => Some(*l),
            None => None,
        };
        let ghost dv = r.deep_view();
        r.push(Stage::Slice { offset: off, length: len });
        proof {
            assert(r.deep_view() =~= dv.push(
                StageV::Slice {
                    offset: if o.offset is Some {
                        o.offset->0 as int
                    } else {
                        0
                    },
                    length: if o.limit is Some {
                        Some(o.limit->0 as int)
                    } else {
                        None
                    },
                },
            ));
        }
    }
    proof {
        assert(r.deep_view() =~= spec_compile(*o));
    }
    r
}

/// The compiled sequence lists stage kinds in strictly increasing precedence:
/// each kind appears at most once, and always in the fixed order
/// filter, select, drop, sort, dedup, slice.
pub proof fn lemma_stage_order(o: Options)
    ensures
        forall|i: int, j: int|
            0 <= i < j < spec_compile(o).len() ==> spec_stage_rank(#[trigger] spec_compile(o)[i])
                < spec_stage_rank(#[trigger] spec_compile(o)[j]),
{
}

/// A slice stage, when present, stands last: it is a function of the final
/// row order and the final row set, so nothing the pipeline emits may follow
/// it.
pub proof fn lemma_slice_stage_last(o: Options)
    ensures
        forall|i: int|
            (0 <= i < spec_compile(o).len() && (#[trigger] spec_compile(o)[i]) matches StageV::Slice {
                ..
            }) ==> i == spec_compile(o).len() - 1,
{
    assert forall|i: int|
        0 <= i < spec_compile(o).len() && (#[trigger] spec_compile(o)[i]) matches StageV::Slice {
            ..
        } implies i == spec_compile(o).len() - 1 by {
        lemma_stage_order(o);
        if i < spec_compile(o).len() - 1 {
            assert(spec_stage_rank(spec_compile(o)[i]) < spec_stage_rank(
                spec_compile(o)[spec_compile(o).len() - 1],
            ));
        }
    }
}

/// A stage of each kind is emitted exactly when its option is present.
pub proof fn lemma_stage_presence(o: Options)
    ensures
        (exists|i: int|
            0 <= i < spec_compile(o).len() && (#[trigger] spec_compile(o)[i]) matches StageV::Filter {
                ..
            }) <==> o.filter is Some,
        (exists|i: int|
            0 <= i < spec_compile(o).len() && (#[trigger] spec_compile(o)[i]) matches StageV::Slice {
                ..
            }) <==> (o.offset is Some || o.limit is Some),
        (exists|i: int|
            0 <= i < spec_compile(o).len() && (#[trigger] spec_compile(o)[i]) matches StageV::Dedup {
                ..
            }) <==> (o.unique || o.unique_on is Some),
        spec_compile(o).len() == 0 <==> (o.filter is None && o.select is None && o.drop is None
            && o.sort_keys@.len() == 0 && !o.unique && o.unique_on is None && o.limit is None
            && o.offset is None),
{
    let s = spec_compile(o);
    if o.filter is Some {
        assert(s[0] matches StageV::Filter { .. });
    }
    if o.offset is Some || o.limit is Some {
        assert(s[s.len() - 1] matches StageV::Slice { .. });
    }
    let k: int = spec_filter_stages(o).len() as int + spec_select_stages(o).len() as int
        + spec_drop_stages(o).len() as int + spec_sort_stages(o).len() as int;
    if o.unique_on is Some || o.unique {
        assert(s[k] matches StageV::Dedup { .. });
    }
}

} // verus!

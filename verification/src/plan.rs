//! What a diff does before it reads rows: how rows are matched, and which
//! columns are scanned.

use crate::error::{Error, ErrorView};
use crate::infer::{first_outside, infer_key, inferred_key, key_candidates, law_candidates_are_shared, law_inferred_key_is_unique, lemma_none_missing, validate_key};
use crate::input::{is_sample, lemma_projected_counts, picked_fields, projects, row_count, BatchIter, Table};
use crate::keyless::{diff_streams_keyless, keyless_result};
use crate::rename::{desc_names, detect_renames, detected_renames, is_close, key_view, law_renames_pair_close_columns, names_of, with_renames, SAMPLE_ROWS};
use crate::report::{differs, DiffReport, ReportView};
use crate::row_diff::{diff_streams, keyed_result, lemma_filter_shorter, not_in, report_view, value_names};
use crate::schema::{first_missing, has_column, lemma_column, lemma_first_missing, names, places, FieldShape};
use crate::schema_diff::{absent_from, diff_schemas, law_schema_columns_are_classified, present_in, schema_diff, DescView, SchemaDiff, SchemaDiffView};
use crate::text::{copy_all, equals, views};
use crate::value::Comparator;
use crate::DiffConfig;
use vstd::prelude::*;

verus! {

/// Rows sampled from each side when inferring a key column.
pub const KEY_INFER_SAMPLE_ROWS: usize = 100_000;

/// Keyed with a resolved key, or keyless (auto = fell back from inference).
#[derive(Debug)]
pub enum Mode {
    Keyed { key: Vec<String>, inferred: bool },
    Keyless { auto: bool },
}

/// A mode as plain data.
pub enum ModeView {
    Keyed { key: Seq<Seq<char>>, inferred: bool },
    Keyless { auto: bool },
}

impl View for Mode {
    type V = ModeView;

    open spec fn view(&self) -> ModeView {
        match self {
            Mode::Keyed { key, inferred } => ModeView::Keyed {
                key: views(key@),
                inferred: *inferred,
            },
            Mode::Keyless { auto } => ModeView::Keyless { auto: *auto },
        }
    }
}

impl ModeView {
    /// The key columns, where there are any.
    pub open spec fn key(self) -> Option<Seq<Seq<char>>> {
        match self {
            ModeView::Keyed { key, .. } => Some(key),
            ModeView::Keyless { .. } => None,
        }
    }
}

/// True where floats may differ a little.
pub open spec fn has_tolerance(cfg: DiffConfig) -> bool {
    cfg.tol_abs is Some || cfg.tol_rel is Some
}

/// What the options decide by themselves: a mode, or that the diff is refused.
/// Where they decide nothing, a key is to be inferred.
pub open spec fn requested_mode(cfg: DiffConfig, shared: Seq<Seq<char>>) -> Option<
    Result<ModeView, ErrorView>,
> {
    if shared.len() == 0 {
        Some(Err(ErrorView::NoSharedColumns))
    } else if cfg.keyless {
        if cfg.key is Some {
            Some(Err(ErrorView::KeylessWithKey))
        } else if has_tolerance(cfg) {
            Some(Err(ErrorView::KeylessWithTolerances))
        } else if cfg.assume_sorted {
            Some(Err(ErrorView::KeylessAssumeSorted))
        } else {
            Some(Ok(ModeView::Keyless { auto: false }))
        }
    } else {
        match cfg.key {
            Some(key) => match first_outside(shared, views(key@)) {
                Some(column) => Some(Err(ErrorView::KeyNotShared { column, shared })),
                None => Some(Ok(ModeView::Keyed { key: views(key@), inferred: false })),
            },
            None => if cfg.assume_sorted {
                Some(Err(ErrorView::AssumeSortedWithoutKey))
            } else {
                None
            },
        }
    }
}

/// A mode or an error, by its view.
pub open spec fn mode_view(r: Result<Mode, Error>) -> Result<ModeView, ErrorView> {
    match r {
        Ok(mode) => Ok(mode@),
        Err(e) => Err(e@),
    }
}

/// The mode that the options ask for; none where a key is to be inferred.
pub fn choose_mode(cfg: &DiffConfig, schema: &SchemaDiff) -> (r: Option<Result<Mode, Error>>)
    ensures
        match requested_mode(*cfg, schema@.mutual) {
            Some(want) => r matches Some(got) && mode_view(got) == want,
            None => r is None,
        },
{
    if schema.mutual.is_empty() {
        return Some(Err(Error::NoSharedColumns));
    }
    if cfg.keyless {
        if cfg.key.is_some() {
            return Some(Err(Error::KeylessWithKey));
        }
        if cfg.tol_abs.is_some() || cfg.tol_rel.is_some() {
            return Some(Err(Error::KeylessWithTolerances));
        }
        if cfg.assume_sorted {
            return Some(Err(Error::KeylessAssumeSorted));
        }
        return Some(Ok(Mode::Keyless { auto: false }));
    }
    match &cfg.key {
        Some(key) => match validate_key(key, schema) {
            Ok(()) => Some(Ok(Mode::Keyed { key: copy_all(key), inferred: false })),
            Err(e) => Some(Err(e)),
        },
        None => if cfg.assume_sorted {
            Some(Err(Error::AssumeSortedWithoutKey))
        } else {
            None
        },
    }
}

/// The mode that inference ends in. Without tolerances, keyless is a safe
/// drop-in; with them the user must decide.
pub open spec fn inferred_mode(cfg: DiffConfig, found: Result<Seq<char>, ErrorView>) -> Result<
    ModeView,
    ErrorView,
> {
    match found {
        Ok(column) => Ok(ModeView::Keyed { key: seq![column], inferred: true }),
        Err(_) => if has_tolerance(cfg) {
            Err(ErrorView::NoKeyForTolerances)
        } else {
            Ok(ModeView::Keyless { auto: true })
        },
    }
}

/// Infers how to match rows from samples of the shared columns.
pub fn infer_mode(cfg: &DiffConfig, left: &Table, right: &Table, shared: &Vec<String>) -> (r: Result<
    Mode,
    Error,
>)
    requires
        left.wf(),
        right.wf(),
    ensures
        mode_view(r) == inferred_mode(
            *cfg,
            inferred_key(*left, *right, key_candidates(views(shared@))),
        ),
{
    match infer_key(left, right, shared) {
        Ok(key) => Ok(Mode::Keyed { key, inferred: true }),
        Err(_) => if cfg.tol_abs.is_some() || cfg.tol_rel.is_some() {
            Err(Error::NoKeyForTolerances)
        } else {
            Ok(Mode::Keyless { auto: true })
        },
    }
}

/// The columns that are sampled on a side to find renames: the key, and those
/// that only this side has.
pub open spec fn sampled_names(key: Option<Seq<Seq<char>>>, own: Seq<DescView>) -> Seq<Seq<char>> {
    match key {
        Some(k) => k + desc_names(own),
        None => desc_names(own),
    }
}

/// Lists the columns to sample on both sides to find renames; none where only
/// one side has columns of its own, so that there is no rename to find.
pub fn rename_columns(schema: &SchemaDiff, key: Option<&Vec<String>>) -> (r: Option<
    (Vec<String>, Vec<String>),
>)
    ensures
        match r {
            Some((lnames, rnames)) => {
                &&& schema@.added.len() > 0 && schema@.removed.len() > 0
                &&& views(lnames@) == sampled_names(key_view(key), schema@.removed)
                &&& views(rnames@) == sampled_names(key_view(key), schema@.added)
            },
            None => schema@.added.len() == 0 || schema@.removed.len() == 0,
        },
{
    if schema.added.is_empty() || schema.removed.is_empty() {
        return None;
    }
    let removed = names_of(&schema.removed);
    let added = names_of(&schema.added);
    Some(match key {
        Some(k) => (chained(k, &removed), chained(k, &added)),
        None => (removed, added),
    })
}

fn chained(a: &Vec<String>, b: &Vec<String>) -> (r: Vec<String>)
    ensures
        views(r@) == views(a@) + views(b@),
{
    let mut r = copy_all(a);
    for i in 0..b.len()
        invariant
            r@.len() == a@.len() + i,
            forall|j: int| 0 <= j < r@.len() ==> (#[trigger] r@[j])@ == (views(a@) + views(b@))[j],
    {
        r.push(b[i].clone());
    }
    assert(views(r@) =~= views(a@) + views(b@));
    r
}

/// The schema difference with the renames that samples of both tables show.
pub open spec fn renames_found(
    left: BatchIter,
    right: BatchIter,
    schema: SchemaDiffView,
    key: Option<Seq<Seq<char>>>,
    found: SchemaDiffView,
) -> bool {
    if schema.added.len() == 0 || schema.removed.len() == 0 {
        found == schema
    } else {
        exists|l: Table, m: Table|
            {
                &&& #[trigger] is_sample(
                    l,
                    left,
                    sampled_names(key, schema.removed),
                    SAMPLE_ROWS as nat,
                )
                &&& #[trigger] is_sample(
                    m,
                    right,
                    sampled_names(key, schema.added),
                    SAMPLE_ROWS as nat,
                )
                &&& found == with_renames(schema, detected_renames(schema, l, m, key))
            }
    }
}

/// True where every name is a column of both tables.
pub open spec fn all_shared(left: Seq<FieldShape>, right: Seq<FieldShape>, key: Seq<Seq<char>>) -> bool {
    forall|i: int|
        0 <= i < key.len() ==> has_column(left, #[trigger] key[i]) && has_column(right, key[i])
}

/// The columns of a sample are the wanted ones.
proof fn lemma_sample_names(fields: Seq<FieldShape>, wanted: Seq<Seq<char>>)
    requires
        first_missing(fields, wanted) is None,
        fields.len() <= usize::MAX,
    ensures
        names(picked_fields(fields, places(fields, wanted))) == wanted,
        forall|i: int|
            0 <= i < wanted.len() ==> has_column(
                picked_fields(fields, places(fields, wanted)),
                #[trigger] wanted[i],
            ),
{
    let picked = picked_fields(fields, places(fields, wanted));
    lemma_none_missing(fields, wanted);
    assert forall|i: int| 0 <= i < wanted.len() implies names(picked)[i] == wanted[i] by {
        assert(has_column(fields, wanted[i]));
        lemma_column(fields, wanted[i]);
    }
    assert(names(picked) =~= wanted);
    assert forall|i: int| 0 <= i < wanted.len() implies has_column(picked, #[trigger] wanted[i]) by {
        lemma_column(picked, wanted[i]);
        assert(names(picked)[i] == wanted[i]);
    }
}

/// The columns that renames are looked for in are there.
pub proof fn lemma_sampled_columns(
    left: Seq<FieldShape>,
    right: Seq<FieldShape>,
    key: Option<Seq<Seq<char>>>,
)
    requires
        key matches Some(k) ==> all_shared(left, right, k),
    ensures
        first_missing(left, sampled_names(key, schema_diff(left, right).removed)) is None,
        first_missing(right, sampled_names(key, schema_diff(left, right).added)) is None,
{
    let d = schema_diff(left, right);
    let l = sampled_names(key, d.removed);
    let m = sampled_names(key, d.added);
    assert(desc_names(d.removed) =~= d.removed.map_values(|c: DescView| c.name));
    assert(desc_names(d.added) =~= d.added.map_values(|c: DescView| c.name));
    let skip = match key {
        Some(k) => k.len() as int,
        None => 0,
    };
    assert forall|i: int| 0 <= i < l.len() implies has_column(left, #[trigger] l[i]) by {
        law_schema_columns_are_classified(left, right, l[i]);
        if i >= skip {
            assert(desc_names(d.removed)[i - skip] == l[i]);
        } else {
            assert(key->0[i] == l[i]);
        }
    }
    assert forall|i: int| 0 <= i < m.len() implies has_column(right, #[trigger] m[i]) by {
        law_schema_columns_are_classified(left, right, m[i]);
        if i >= skip {
            assert(desc_names(d.added)[i - skip] == m[i]);
        } else {
            assert(key->0[i] == m[i]);
        }
    }
    lemma_first_missing(left, l, l.len() as int);
    lemma_first_missing(right, m, m.len() as int);
}

proof fn lemma_parts_there(fields: Seq<FieldShape>, key: Option<Seq<Seq<char>>>, own: Seq<DescView>)
    requires
        forall|i: int|
            0 <= i < sampled_names(key, own).len() ==> has_column(
                fields,
                #[trigger] sampled_names(key, own)[i],
            ),
    ensures
        forall|i: int| 0 <= i < desc_names(own).len() ==> has_column(fields, #[trigger] desc_names(own)[i]),
        key matches Some(k) ==> first_missing(fields, k) is None,
{
    let all = sampled_names(key, own);
    let skip = match key {
        Some(k) => k.len() as int,
        None => 0,
    };
    assert forall|i: int| 0 <= i < desc_names(own).len() implies has_column(
        fields,
        #[trigger] desc_names(own)[i],
    ) by {
        assert(all[i + skip] == desc_names(own)[i]);
    }
    match key {
        Some(k) => {
            assert forall|i: int| 0 <= i < k.len() implies has_column(fields, #[trigger] k[i]) by {
                assert(all[i] == k[i]);
            }
            lemma_first_missing(fields, k, k.len() as int);
        },
        None => {},
    }
}

/// Finds renames from samples of both tables.
pub fn find_renames(
    left: &BatchIter,
    right: &BatchIter,
    schema: SchemaDiff,
    key: Option<&Vec<String>>,
) -> (r: SchemaDiff)
    requires
        left.wf(),
        right.wf(),
        schema@ == schema_diff(left.schema@, right.schema@),
        key_view(key) matches Some(k) ==> all_shared(left.schema@, right.schema@, k),
    ensures
        renames_found(*left, *right, schema@, key_view(key), r@),
{
    let (lnames, rnames) = match rename_columns(&schema, key) {
        Some(names) => names,
        None => {
            return schema;
        },
    };
    proof {
        lemma_sampled_columns(left.schema@, right.schema@, key_view(key));
    }
    match (left.sample(&lnames, SAMPLE_ROWS), right.sample(&rnames, SAMPLE_ROWS)) {
        (Ok(l), Ok(m)) => {
            proof {
                assert(left.schema.fields.len() <= usize::MAX);
                assert(right.schema.fields.len() <= usize::MAX);
                lemma_sample_names(left.schema@, views(lnames@));
                lemma_sample_names(right.schema@, views(rnames@));
                lemma_parts_there(l.schema@, key_view(key), schema@.removed);
                lemma_parts_there(m.schema@, key_view(key), schema@.added);
            }
            detect_renames(schema, &l, &m, key)
        },
        _ => schema,
    }
}

/// True of what a diff may come to once the mode and the renames are known.
pub open spec fn scan_result(
    cfg: DiffConfig,
    left: BatchIter,
    right: BatchIter,
    mode: ModeView,
    found: SchemaDiffView,
    r: Result<ReportView, ErrorView>,
) -> bool {
    exists|l: BatchIter, m: BatchIter|
        {
            &&& #[trigger] projects(l, left, found.left_names())
            &&& #[trigger] projects(m, right, found.right_names())
            &&& match mode {
                ModeView::Keyed { key, inferred } => keyed_result(
                    l,
                    m,
                    key,
                    inferred,
                    found,
                    cfg,
                    Comparator { tol_abs: cfg.tol_abs, tol_rel: cfg.tol_rel },
                    r,
                ),
                ModeView::Keyless { auto } => keyless_result(l, m, auto, found, cfg, r),
            }
        }
}

/// True of what a diff in a given mode may come to.
pub open spec fn mode_result(
    cfg: DiffConfig,
    left: BatchIter,
    right: BatchIter,
    mode: ModeView,
    r: Result<ReportView, ErrorView>,
) -> bool {
    exists|found: SchemaDiffView| #[trigger]
        renames_found(left, right, schema_diff(left.schema@, right.schema@), mode.key(), found)
            && scan_result(cfg, left, right, mode, found, r)
}

/// True of what a diff of two tables may come to.
pub open spec fn diff_result(
    cfg: DiffConfig,
    left: BatchIter,
    right: BatchIter,
    r: Result<ReportView, ErrorView>,
) -> bool {
    let shared = schema_diff(left.schema@, right.schema@).mutual;
    match requested_mode(cfg, shared) {
        Some(Err(e)) => r == Err::<ReportView, ErrorView>(e),
        Some(Ok(mode)) => mode_result(cfg, left, right, mode, r),
        None => exists|l: Table, m: Table|
            {
                &&& #[trigger] is_sample(l, left, shared, KEY_INFER_SAMPLE_ROWS as nat)
                &&& #[trigger] is_sample(m, right, shared, KEY_INFER_SAMPLE_ROWS as nat)
                &&& match inferred_mode(cfg, inferred_key(l, m, key_candidates(shared))) {
                    Err(e) => r == Err::<ReportView, ErrorView>(e),
                    Ok(mode) => mode_result(cfg, left, right, mode, r),
                }
            },
    }
}

/// The shared columns are columns of both tables.
pub proof fn lemma_mutual_shared(left: Seq<FieldShape>, right: Seq<FieldShape>)
    ensures
        all_shared(left, right, schema_diff(left, right).mutual),
        first_missing(left, schema_diff(left, right).mutual) is None,
        first_missing(right, schema_diff(left, right).mutual) is None,
{
    let mutual = schema_diff(left, right).mutual;
    assert forall|i: int| 0 <= i < mutual.len() implies has_column(left, #[trigger] mutual[i])
        && has_column(right, mutual[i]) by {
        law_schema_columns_are_classified(left, right, mutual[i]);
    }
    lemma_first_missing(left, mutual, mutual.len() as int);
    lemma_first_missing(right, mutual, mutual.len() as int);
}

proof fn lemma_filter_splits<A>(s: Seq<A>, p: spec_fn(A) -> bool, q: spec_fn(A) -> bool)
    requires
        forall|a: A| #[trigger] p(a) == !q(a),
    ensures
        s.filter(p).len() + s.filter(q).len() == s.len(),
    decreases s.len(),
{
    reveal(Seq::filter);
    if s.len() > 0 {
        lemma_filter_splits(s.drop_last(), p, q);
        assert(p(s.last()) == !q(s.last()));
    }
}

/// The scanned columns are there, and no more are compared than the left table
/// has.
pub proof fn lemma_scanned_columns(
    left: BatchIter,
    right: BatchIter,
    key: Option<Seq<Seq<char>>>,
    found: SchemaDiffView,
)
    requires
        renames_found(left, right, schema_diff(left.schema@, right.schema@), key, found),
    ensures
        first_missing(left.schema@, found.left_names()) is None,
        first_missing(right.schema@, found.right_names()) is None,
        forall|k: Seq<Seq<char>>| (#[trigger] value_names(found, k)).len() <= left.schema@.len(),
{
    let lf = left.schema@;
    let rf = right.schema@;
    let d = schema_diff(lf, rf);
    let renames = found.renamed;
    assert(found.mutual == d.mutual);
    assert(desc_names(d.removed) =~= d.removed.map_values(|c: DescView| c.name));
    assert(desc_names(d.added) =~= d.added.map_values(|c: DescView| c.name));
    assert(renames.len() <= d.removed.len() && forall|i: int|
        0 <= i < renames.len() ==> desc_names(d.removed).contains((#[trigger] renames[i]).left)
            && desc_names(d.added).contains(renames[i].right)) by {
        if d.added.len() > 0 && d.removed.len() > 0 {
            let (l, m) = choose|l: Table, m: Table|
                {
                    &&& #[trigger] is_sample(l, left, sampled_names(key, d.removed), SAMPLE_ROWS as nat)
                    &&& #[trigger] is_sample(m, right, sampled_names(key, d.added), SAMPLE_ROWS as nat)
                    &&& found == with_renames(d, detected_renames(d, l, m, key))
                };
            law_renames_pair_close_columns(d, l, m, key);
            assert(renames =~= detected_renames(d, l, m, key));
            assert forall|i: int| 0 <= i < renames.len() implies desc_names(d.removed).contains(
                (#[trigger] renames[i]).left,
            ) && desc_names(d.added).contains(renames[i].right) by {
                assert(is_close(
                    l,
                    m,
                    key,
                    desc_names(d.removed),
                    desc_names(d.added),
                    detected_renames(d, l, m, key)[i],
                ));
            }
        }
    }
    lemma_mutual_shared(lf, rf);
    let ln = found.left_names();
    let rn = found.right_names();
    let n = d.mutual.len() as int;
    assert forall|i: int| 0 <= i < ln.len() implies has_column(lf, #[trigger] ln[i]) by {
        law_schema_columns_are_classified(lf, rf, ln[i]);
        if i >= n {
            assert(ln[i] == renames[i - n].left);
        } else {
            assert(ln[i] == d.mutual[i]);
        }
    }
    assert forall|i: int| 0 <= i < rn.len() implies has_column(rf, #[trigger] rn[i]) by {
        law_schema_columns_are_classified(lf, rf, rn[i]);
        if i >= n {
            assert(rn[i] == renames[i - n].right);
        } else {
            assert(rn[i] == d.mutual[i]);
        }
    }
    lemma_first_missing(lf, ln, ln.len() as int);
    lemma_first_missing(rf, rn, rn.len() as int);
    lemma_filter_splits(lf, present_in(rf), absent_from(rf));
    assert forall|k: Seq<Seq<char>>| (#[trigger] value_names(found, k)).len() <= lf.len() by {
        lemma_filter_shorter(d.mutual, not_in(k));
    }
}

/// Compares two tables in a given mode.
fn run_mode(
    cfg: &DiffConfig,
    left: &BatchIter,
    right: &BatchIter,
    schema: SchemaDiff,
    mode: Mode,
) -> (r: Result<DiffReport, Error>)
    requires
        left.wf(),
        right.wf(),
        schema@ == schema_diff(left.schema@, right.schema@),
        mode@ matches ModeView::Keyed { key, .. } ==> key.len() > 0 && all_shared(
            left.schema@,
            right.schema@,
            key,
        ),
        (row_count(left.batches@) + 1) * left.schema@.len() <= usize::MAX,
    ensures
        mode_result(*cfg, *left, *right, mode@, report_view(r)),
{
    let found = match &mode {
        Mode::Keyed { key, .. } => find_renames(left, right, schema, Some(key)),
        Mode::Keyless { .. } => find_renames(left, right, schema, None),
    };
    let ghost d = found@;
    assert(renames_found(*left, *right, schema@, mode@.key(), d));
    proof {
        lemma_scanned_columns(*left, *right, mode@.key(), d);
    }
    // Renamed columns ride along under their side-local names.
    let lproj = found.left_columns();
    let rproj = found.right_columns();
    match (left.project(&lproj), right.project(&rproj)) {
        (Ok(l), Ok(m)) => {
            proof {
                lemma_projected_rows(l, *left, d.left_names());
            }
            match mode {
                Mode::Keyed { key, inferred } => {
                    proof {
                        let n = value_names(d, views(key@)).len() as int;
                        let rows = row_count(left.batches@) + 1;
                        assert(rows * n <= rows * left.schema@.len()) by (nonlinear_arith)
                            requires
                                0 <= rows,
                                n <= left.schema@.len(),
                        ;
                    }
                    let comparator = Comparator { tol_abs: cfg.tol_abs, tol_rel: cfg.tol_rel };
                    diff_streams(&l, &m, &key, inferred, found, cfg, &comparator)
                },
                Mode::Keyless { auto } => diff_streams_keyless(l, m, auto, found, cfg),
            }
        },
        (Err(e), _) => Err(e),
        (_, Err(e)) => Err(e),
    }
}

/// Compares two tables.
pub fn run_diff(cfg: &DiffConfig, left: &BatchIter, right: &BatchIter) -> (r: Result<
    DiffReport,
    Error,
>)
    requires
        left.wf(),
        right.wf(),
        !cfg.keyless ==> (cfg.key matches Some(key) ==> key@.len() > 0),
        (row_count(left.batches@) + 1) * left.schema@.len() <= usize::MAX,
    ensures
        diff_result(*cfg, *left, *right, report_view(r)),
{
    let schema = diff_schemas(&left.schema, &right.schema);
    proof {
        lemma_mutual_shared(left.schema@, right.schema@);
    }
    match choose_mode(cfg, &schema) {
        Some(Ok(mode)) => {
            proof {
                match &cfg.key {
                    Some(key) => {
                        lemma_none_outside(schema@.mutual, views(key@));
                    },
                    None => {},
                }
            }
            run_mode(cfg, left, right, schema, mode)
        },
        Some(Err(e)) => Err(e),
        None => match (
            left.sample(&schema.mutual, KEY_INFER_SAMPLE_ROWS),
            right.sample(&schema.mutual, KEY_INFER_SAMPLE_ROWS),
        ) {
            (Ok(l), Ok(m)) => match infer_mode(cfg, &l, &m, &schema.mutual) {
                Ok(mode) => {
                    proof {
                        lemma_inferred_shared(l, m, *left, schema@.mutual);
                    }
                    run_mode(cfg, left, right, schema, mode)
                },
                Err(e) => Err(e),
            },
            (Err(e), _) => Err(e),
            (_, Err(e)) => Err(e),
        },
    }
}

proof fn lemma_projected_rows(stream: BatchIter, from: BatchIter, names: Seq<Seq<char>>)
    requires
        projects(stream, from, names),
    ensures
        row_count(stream.batches@) == row_count(from.batches@),
{
    lemma_projected_counts(stream.batches@, from.batches@, places(from.schema@, names));
}

/// Where no name is outside a list, all are in it.
pub proof fn lemma_none_outside(list: Seq<Seq<char>>, wanted: Seq<Seq<char>>)
    requires
        first_outside(list, wanted) is None,
    ensures
        forall|i: int| 0 <= i < wanted.len() ==> list.contains(#[trigger] wanted[i]),
    decreases wanted.len(),
{
    if wanted.len() > 0 {
        let rest = wanted.drop_first();
        lemma_none_outside(list, rest);
        assert forall|i: int| 0 <= i < wanted.len() implies list.contains(#[trigger] wanted[i]) by {
            if i > 0 {
                assert(rest[i - 1] == wanted[i]);
            }
        }
    }
}

/// An inferred key is a shared column.
proof fn lemma_inferred_shared(l: Table, m: Table, left: BatchIter, mutual: Seq<Seq<char>>)
    requires
        is_sample(l, left, mutual, KEY_INFER_SAMPLE_ROWS as nat),
        first_missing(left.schema@, mutual) is None,
    ensures
        inferred_key(l, m, key_candidates(mutual)) matches Ok(c) ==> mutual.contains(c),
{
    match inferred_key(l, m, key_candidates(mutual)) {
        Ok(c) => {
            law_inferred_key_is_unique(l, m, key_candidates(mutual));
            law_candidates_are_shared(mutual, c);
        },
        Err(_) => {},
    }
}

/// The exit code of a diff: 0 where there is no difference, 1 where there is
/// one, and 2 for an error.
pub open spec fn code_of(r: Result<ReportView, ErrorView>) -> u8 {
    match r {
        Ok(report) => if differs(report) {
            1
        } else {
            0
        },
        Err(_) => 2,
    }
}

/// The exit code of a diff, after the convention of `diff` and `cmp`.
pub fn exit_code(r: &Result<DiffReport, Error>) -> (code: u8)
    ensures
        code == match report_view(*r) {
            Ok(report) => if differs(report) {
                1u8
            } else {
                0u8
            },
            Err(_) => 2u8,
        },
        code == code_of(report_view(*r)),
{
    match r {
        Ok(report) => if report.has_differences() {
            1
        } else {
            0
        },
        Err(_) => 2,
    }
}

/// The name that git gives to a file that is not there.
pub open spec fn is_absent(path: Seq<char>) -> bool {
    path == "/dev/null"@ || path == "nul"@
}

fn names_no_file(path: &str) -> (r: bool)
    ensures
        r == is_absent(path@),
{
    let path = path.to_owned();
    equals(&path, "/dev/null") || equals(&path, "nul")
}

/// What a diff driver for git says in place of a diff where one of the two
/// files is not there.
pub fn git_note(old: &str, new: &str) -> (r: Option<String>)
    ensures
        if is_absent(old@) {
            r matches Some(note) && note@ == "(new file)"@
        } else if is_absent(new@) {
            r matches Some(note) && note@ == "(deleted file)"@
        } else {
            r is None
        },
{
    if names_no_file(old) {
        Some("(new file)".to_owned())
    } else if names_no_file(new) {
        Some("(deleted file)".to_owned())
    } else {
        None
    }
}

} // verus!

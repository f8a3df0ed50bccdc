//! Differences between two schemas.

use crate::schema::{column, has_column, lemma_column, names, type_label, Field, FieldShape, Schema};
use crate::text::{copy_all, views};
use vstd::prelude::*;

verus! {

#[derive(Debug)]
pub struct ColumnDesc {
    pub name: String,
    pub data_type: String,
}

#[derive(Debug)]
pub struct TypeChange {
    pub name: String,
    pub left: String,
    pub right: String,
}

#[derive(Debug)]
pub struct RenamedColumn {
    pub left: String,
    pub right: String,
    /// Content similarity that backed the claim (match rate or Jaccard), as
    /// the bit pattern of a double.
    pub similarity: u64,
}

#[derive(Debug)]
pub struct SchemaDiff {
    pub added: Vec<ColumnDesc>,
    pub removed: Vec<ColumnDesc>,
    pub type_changed: Vec<TypeChange>,
    pub renamed: Vec<RenamedColumn>,
    /// Columns present on both sides, in left-schema order.
    pub mutual: Vec<String>,
}

/// A column that only one side has, as plain data.
pub struct DescView {
    pub name: Seq<char>,
    pub data_type: Seq<char>,
}

/// A column whose type changed, as plain data.
pub struct ChangeView {
    pub name: Seq<char>,
    pub left: Seq<char>,
    pub right: Seq<char>,
}

/// A renamed column, as plain data.
pub struct RenameView {
    pub left: Seq<char>,
    pub right: Seq<char>,
    pub similarity: u64,
}

/// A schema difference as plain data.
pub struct SchemaDiffView {
    pub added: Seq<DescView>,
    pub removed: Seq<DescView>,
    pub type_changed: Seq<ChangeView>,
    pub renamed: Seq<RenameView>,
    pub mutual: Seq<Seq<char>>,
}

impl SchemaDiffView {
    /// The columns that are scanned on the left: the shared ones, and the
    /// renamed ones under their names there.
    pub open spec fn left_names(self) -> Seq<Seq<char>> {
        self.mutual + self.renamed.map_values(|r: RenameView| r.left)
    }

    /// The columns that are scanned on the right: the shared ones, and the
    /// renamed ones under their names there.
    pub open spec fn right_names(self) -> Seq<Seq<char>> {
        self.mutual + self.renamed.map_values(|r: RenameView| r.right)
    }
}

impl View for ColumnDesc {
    type V = DescView;

    open spec fn view(&self) -> DescView {
        DescView { name: self.name@, data_type: self.data_type@ }
    }
}

impl View for TypeChange {
    type V = ChangeView;

    open spec fn view(&self) -> ChangeView {
        ChangeView { name: self.name@, left: self.left@, right: self.right@ }
    }
}

impl View for RenamedColumn {
    type V = RenameView;

    open spec fn view(&self) -> RenameView {
        RenameView { left: self.left@, right: self.right@, similarity: self.similarity }
    }
}

impl View for SchemaDiff {
    type V = SchemaDiffView;

    open spec fn view(&self) -> SchemaDiffView {
        SchemaDiffView {
            added: self.added@.map_values(|c: ColumnDesc| c@),
            removed: self.removed@.map_values(|c: ColumnDesc| c@),
            type_changed: self.type_changed@.map_values(|c: TypeChange| c@),
            renamed: self.renamed@.map_values(|c: RenamedColumn| c@),
            mutual: views(self.mutual@),
        }
    }
}

/// A column as it is reported: its name and the name of its type.
pub open spec fn described() -> spec_fn(FieldShape) -> DescView {
    |f: FieldShape| DescView { name: f.name, data_type: type_label(f.data_type) }
}

/// A shared column with the names of its two types.
pub open spec fn retyped(right: Seq<FieldShape>) -> spec_fn(FieldShape) -> ChangeView {
    |f: FieldShape|
        ChangeView {
            name: f.name,
            left: type_label(f.data_type),
            right: type_label(right[column(right, f.name)].data_type),
        }
}

/// Columns that another schema does not have.
pub open spec fn absent_from(other: Seq<FieldShape>) -> spec_fn(FieldShape) -> bool {
    |f: FieldShape| !has_column(other, f.name)
}

/// Columns that another schema has too.
pub open spec fn present_in(other: Seq<FieldShape>) -> spec_fn(FieldShape) -> bool {
    |f: FieldShape| has_column(other, f.name)
}

/// Columns that another schema has with another type.
pub open spec fn typed_otherwise(other: Seq<FieldShape>) -> spec_fn(FieldShape) -> bool {
    |f: FieldShape|
        has_column(other, f.name) && other[column(other, f.name)].data_type != f.data_type
}

/// The difference of two schemas: columns match by name, and a name that
/// occurs twice counts as its first column.
pub open spec fn schema_diff(left: Seq<FieldShape>, right: Seq<FieldShape>) -> SchemaDiffView {
    SchemaDiffView {
        added: right.filter(absent_from(left)).map_values(described()),
        removed: left.filter(absent_from(right)).map_values(described()),
        type_changed: left.filter(typed_otherwise(right)).map_values(retyped(right)),
        renamed: seq![],
        mutual: names(left.filter(present_in(right))),
    }
}

/// True for a schema difference that reports nothing.
pub open spec fn no_schema_change(d: SchemaDiffView) -> bool {
    d.added.len() == 0 && d.removed.len() == 0 && d.type_changed.len() == 0 && d.renamed.len() == 0
}

/// A filter, one element further.
pub proof fn lemma_filter_next<A>(s: Seq<A>, p: spec_fn(A) -> bool, i: int)
    requires
        0 <= i < s.len(),
    ensures
        s.take(i + 1).filter(p) == (if p(s[i]) {
            s.take(i).filter(p).push(s[i])
        } else {
            s.take(i).filter(p)
        }),
{
    reveal(Seq::filter);
    assert(s.take(i + 1).drop_last() =~= s.take(i));
}

impl SchemaDiff {
    /// True where nothing changed.
    pub fn is_empty(&self) -> (r: bool)
        ensures
            r == no_schema_change(self@),
    {
        self.added.is_empty() && self.removed.is_empty() && self.type_changed.is_empty()
            && self.renamed.is_empty()
    }
}

impl SchemaDiff {
    /// The columns that are scanned on the left. Renamed columns ride along
    /// under their side-local names.
    pub fn left_columns(&self) -> (r: Vec<String>)
        ensures
            views(r@) == self@.left_names(),
    {
        let mut r = copy_all(&self.mutual);
        for i in 0..self.renamed.len()
            invariant
                r@.len() == self.mutual@.len() + i,
                forall|j: int| 0 <= j < r@.len() ==> (#[trigger] r@[j])@ == self@.left_names()[j],
        {
            r.push(self.renamed[i].left.clone());
            assert(self@.renamed[i as int] == self.renamed@[i as int]@);
        }
        assert(views(r@) =~= self@.left_names());
        r
    }

    /// The columns that are scanned on the right.
    pub fn right_columns(&self) -> (r: Vec<String>)
        ensures
            views(r@) == self@.right_names(),
    {
        let mut r = copy_all(&self.mutual);
        for i in 0..self.renamed.len()
            invariant
                r@.len() == self.mutual@.len() + i,
                forall|j: int| 0 <= j < r@.len() ==> (#[trigger] r@[j])@ == self@.right_names()[j],
        {
            r.push(self.renamed[i].right.clone());
            assert(self@.renamed[i as int] == self.renamed@[i as int]@);
        }
        assert(views(r@) =~= self@.right_names());
        r
    }
}

fn describe(f: &Field) -> (r: ColumnDesc)
    ensures
        r@ == described()(f@),
{
    ColumnDesc { name: f.name.clone(), data_type: f.data_type.name() }
}

/// Compares two schemas.
pub fn diff_schemas(left: &Schema, right: &Schema) -> (diff: SchemaDiff)
    ensures
        diff@ == schema_diff(left@, right@),
{
    let mut diff = SchemaDiff {
        added: Vec::new(),
        removed: Vec::new(),
        type_changed: Vec::new(),
        renamed: Vec::new(),
        mutual: Vec::new(),
    };
    assert(diff@.removed =~= left@.take(0).filter(absent_from(right@)).map_values(described()));
    assert(diff@.type_changed =~= left@.take(0).filter(typed_otherwise(right@)).map_values(retyped(right@)));
    assert(diff@.mutual =~= names(left@.take(0).filter(present_in(right@))));
    for i in 0..left.fields.len()
        invariant
            diff@.added.len() == 0,
            diff@.renamed.len() == 0,
            diff@.removed =~= left@.take(i as int).filter(absent_from(right@)).map_values(described()),
            diff@.type_changed =~= left@.take(i as int).filter(typed_otherwise(right@)).map_values(
                retyped(right@),
            ),
            diff@.mutual =~= names(left@.take(i as int).filter(present_in(right@))),
    {
        let f = &left.fields[i];
        let ghost before = diff@;
        proof {
            lemma_filter_next(left@, absent_from(right@), i as int);
            lemma_filter_next(left@, typed_otherwise(right@), i as int);
            lemma_filter_next(left@, present_in(right@), i as int);
            assert(left@[i as int] == f@);
        }
        match right.index_of(f.name.as_str()) {
            Some(j) => {
                let rf = &right.fields[j];
                assert(right@[j as int] == rf@);
                diff.mutual.push(f.name.clone());
                if !rf.data_type.same(&f.data_type) {
                    diff.type_changed.push(
                        TypeChange {
                            name: f.name.clone(),
                            left: f.data_type.name(),
                            right: rf.data_type.name(),
                        },
                    );
                    assert(diff@.type_changed =~= before.type_changed.push(retyped(right@)(f@)));
                }
                assert(diff@.mutual =~= before.mutual.push(f.name@));
            },
            None => {
                diff.removed.push(describe(f));
                assert(diff@.removed =~= before.removed.push(described()(f@)));
            },
        }
    }
    assert(left@.take(left@.len() as int) =~= left@);
    assert(diff@.added =~= right@.take(0).filter(absent_from(left@)).map_values(described()));
    let ghost half = diff@;
    for i in 0..right.fields.len()
        invariant
            diff@.removed == half.removed,
            diff@.type_changed == half.type_changed,
            diff@.mutual == half.mutual,
            diff@.renamed == half.renamed,
            diff@.added =~= right@.take(i as int).filter(absent_from(left@)).map_values(described()),
    {
        let f = &right.fields[i];
        let ghost before = diff@;
        proof {
            lemma_filter_next(right@, absent_from(left@), i as int);
            assert(right@[i as int] == f@);
        }
        if left.index_of(f.name.as_str()).is_none() {
            diff.added.push(describe(f));
            assert(diff@.added =~= before.added.push(described()(f@)));
        }
    }
    assert(right@.take(right@.len() as int) =~= right@);
    assert(diff@.renamed =~= seq![]);
    diff
}

/// Swapping the two schemas swaps what was added and what was removed.
pub proof fn law_schema_diff_swaps(left: Seq<FieldShape>, right: Seq<FieldShape>)
    ensures
        schema_diff(left, right).added == schema_diff(right, left).removed,
        schema_diff(left, right).removed == schema_diff(right, left).added,
{
}

/// A filter that accepts nothing keeps nothing.
pub proof fn lemma_filter_none<A>(s: Seq<A>, p: spec_fn(A) -> bool)
    requires
        forall|i: int| 0 <= i < s.len() ==> !p(s[i]),
    ensures
        s.filter(p).len() == 0,
    decreases s.len(),
{
    reveal(Seq::filter);
    if s.len() > 0 {
        assert forall|i: int| 0 <= i < s.drop_last().len() implies !p(s.drop_last()[i]) by {
            assert(s.drop_last()[i] == s[i]);
        }
        lemma_filter_none(s.drop_last(), p);
    }
}

/// A filter keeps exactly the elements that it accepts.
pub proof fn lemma_filter_keeps<A>(s: Seq<A>, p: spec_fn(A) -> bool)
    ensures
        forall|i: int| 0 <= i < s.filter(p).len() ==> p(#[trigger] s.filter(p)[i]) && s.contains(s.filter(p)[i]),
        forall|i: int| 0 <= i < s.len() && p(#[trigger] s[i]) ==> s.filter(p).contains(s[i]),
    decreases s.len(),
{
    reveal(Seq::filter);
    if s.len() > 0 {
        let rest = s.drop_last();
        lemma_filter_keeps(rest, p);
        let f = s.filter(p);
        assert forall|i: int| 0 <= i < f.len() implies p(#[trigger] f[i]) && s.contains(f[i]) by {
            if i < rest.filter(p).len() {
                assert(f[i] == rest.filter(p)[i]);
                let j = choose|j: int| 0 <= j < rest.len() && rest[j] == f[i];
                assert(s[j] == f[i]);
            } else {
                assert(s[s.len() - 1] == f[i]);
            }
        }
        assert forall|i: int| 0 <= i < s.len() && p(#[trigger] s[i]) implies f.contains(s[i]) by {
            if i < rest.len() {
                assert(rest[i] == s[i]);
                let j = choose|j: int| 0 <= j < rest.filter(p).len() && rest.filter(p)[j] == s[i];
                assert(f[j] == s[i]);
            } else {
                assert(f[f.len() - 1] == s[i]);
            }
        }
    }
}

/// Columns of the same name have the same type.
pub open spec fn one_type_per_name(fields: Seq<FieldShape>) -> bool {
    forall|i: int|
        0 <= i < fields.len() ==> fields[column(fields, (#[trigger] fields[i]).name)].data_type
            == fields[i].data_type
}

/// A schema differs from itself in nothing, unless it has a name for two
/// columns of different types.
pub proof fn law_same_schema_has_no_changes(fields: Seq<FieldShape>)
    requires
        one_type_per_name(fields),
    ensures
        no_schema_change(schema_diff(fields, fields)),
        schema_diff(fields, fields).mutual == names(fields),
{
    assert forall|i: int| 0 <= i < fields.len() implies #[trigger] has_column(fields, fields[i].name) by {
        lemma_column(fields, fields[i].name);
        assert(names(fields)[i] == fields[i].name);
    }
    lemma_filter_none(fields, absent_from(fields));
    assert forall|i: int| 0 <= i < fields.len() implies !typed_otherwise(fields)(fields[i]) by {
        assert(has_column(fields, fields[i].name));
    }
    lemma_filter_none(fields, typed_otherwise(fields));
    lemma_filter_all(fields, present_in(fields));
}

/// A filter that accepts everything keeps everything.
pub proof fn lemma_filter_all<A>(s: Seq<A>, p: spec_fn(A) -> bool)
    requires
        forall|i: int| 0 <= i < s.len() ==> p(s[i]),
    ensures
        s.filter(p) == s,
    decreases s.len(),
{
    reveal(Seq::filter);
    if s.len() > 0 {
        assert forall|i: int| 0 <= i < s.drop_last().len() implies p(s.drop_last()[i]) by {
            assert(s.drop_last()[i] == s[i]);
        }
        lemma_filter_all(s.drop_last(), p);
        assert(s.drop_last().push(s.last()) =~= s);
    } else {
        assert(s.filter(p) =~= s);
    }
}

/// Every column of either side is reported as shared, as removed or as added,
/// and none as two of these.
pub proof fn law_schema_columns_are_classified(left: Seq<FieldShape>, right: Seq<FieldShape>, name: Seq<char>)
    ensures
        ({
            let d = schema_diff(left, right);
            let removed = d.removed.map_values(|c: DescView| c.name);
            let added = d.added.map_values(|c: DescView| c.name);
            &&& d.mutual.contains(name) <==> has_column(left, name) && has_column(right, name)
            &&& removed.contains(name) <==> has_column(left, name) && !has_column(right, name)
            &&& added.contains(name) <==> has_column(right, name) && !has_column(left, name)
        }),
{
    lemma_filter_names(left, present_in(right), name, has_column(right, name));
    lemma_filter_names(left, absent_from(right), name, !has_column(right, name));
    lemma_filter_names(right, absent_from(left), name, !has_column(left, name));
    let d = schema_diff(left, right);
    assert(d.removed.map_values(|c: DescView| c.name) =~= names(left.filter(absent_from(right))));
    assert(d.added.map_values(|c: DescView| c.name) =~= names(right.filter(absent_from(left))));
}

/// A filter that looks at names keeps a name or drops it.
proof fn lemma_filter_names(s: Seq<FieldShape>, p: spec_fn(FieldShape) -> bool, name: Seq<char>, keep: bool)
    requires
        forall|f: FieldShape| f.name == name ==> p(f) == keep,
    ensures
        names(s.filter(p)).contains(name) <==> has_column(s, name) && keep,
{
    lemma_filter_keeps(s, p);
    lemma_column(s, name);
    let f = s.filter(p);
    if names(f).contains(name) {
        let i = choose|i: int| 0 <= i < names(f).len() && names(f)[i] == name;
        assert(p(f[i]));
        let j = choose|j: int| 0 <= j < s.len() && s[j] == f[i];
        assert(names(s)[j] == name);
    }
    if has_column(s, name) && keep {
        let i = column(s, name);
        assert(p(s[i]));
        let j = choose|j: int| 0 <= j < f.len() && f[j] == s[i];
        assert(names(f)[j] == name);
    }
}

} // verus!

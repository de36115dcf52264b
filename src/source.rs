//! From the files of a source tree, already read, to an ordered plan.

use vstd::prelude::*;
use crate::change_block::{parse_blocks, parse_change_stmts, BlockView, Stmt};
use crate::graph::{
    determine_execution_order, is_plan_order, object_deps, object_keys, plan_fits, ExecutionPlan,
};
use crate::identity::{
    error_view, qualified_key, relational_object_conformance, unit_result, DatabaseObject,
    ErrorView, SourceError,
};

verus! {

/// One `.sql` file at `<schema_name>/<object_type>/<object_name>.sql`.
pub struct SourceFile {
    pub schema_name: String,
    pub object_type: String,
    pub object_name: String,
    pub contents: String,
}

pub open spec fn start_marker() -> Seq<char> {
    seq!['/', '/', '/', '/', ' ', 'C', 'H', 'A', 'N', 'G', 'E']
}

pub open spec fn end_marker() -> Seq<char> {
    seq!['G', 'O']
}

pub open spec fn name_attribute() -> Seq<char> {
    seq!['n', 'a', 'm', 'e']
}

/// The change blocks of a file, under the default markers.
pub open spec fn file_blocks(f: SourceFile) -> Seq<BlockView> {
    parse_blocks(f.contents@, start_marker(), end_marker(), name_attribute())
}

/// The qualified keys of a file's blocks, in order.
pub open spec fn file_keys(f: SourceFile) -> Seq<Seq<char>> {
    file_blocks(f).map_values(
        |b: BlockView| qualified_key(f.schema_name@, f.object_type@, f.object_name@, b.name),
    )
}

/// The qualified keys of all blocks of all files, file after file.
pub open spec fn tree_keys(files: Seq<SourceFile>) -> Seq<Seq<char>>
    decreases files.len(),
{
    if files.len() == 0 {
        seq![]
    } else {
        tree_keys(files.drop_last()) + file_keys(files[files.len() - 1])
    }
}

/// The dependencies of all blocks of all files, file after file.
pub open spec fn tree_deps(files: Seq<SourceFile>) -> Seq<Seq<Seq<char>>>
    decreases files.len(),
{
    if files.len() == 0 {
        seq![]
    } else {
        tree_deps(files.drop_last()) + file_blocks(files[files.len() - 1]).map_values(
            |b: BlockView| b.deps,
        )
    }
}

/// The SQL texts of all blocks of all files, file after file.
pub open spec fn tree_values(files: Seq<SourceFile>) -> Seq<Seq<char>>
    decreases files.len(),
{
    if files.len() == 0 {
        seq![]
    } else {
        tree_values(files.drop_last()) + file_blocks(files[files.len() - 1]).map_values(
            |b: BlockView| b.value,
        )
    }
}

pub open spec fn object_values(objs: Seq<DatabaseObject>) -> Seq<Seq<char>> {
    objs.map_values(|o: DatabaseObject| o.value@)
}

pub open spec fn error_views(es: Seq<SourceError>) -> Seq<ErrorView> {
    es.map_values(|e: SourceError| error_view(e))
}

/// What checking block `b` of file `f` yields.
pub open spec fn block_unit(f: SourceFile, b: BlockView) -> Result<Seq<char>, ErrorView> {
    unit_result(f.schema_name@, f.object_type@, f.object_name@, b.name, b.value)
}

/// The error of the first of `bs` that fails, if any.
pub open spec fn first_failure(f: SourceFile, bs: Seq<BlockView>) -> Option<ErrorView>
    decreases bs.len(),
{
    if bs.len() == 0 {
        None
    } else {
        match block_unit(f, bs[0]) {
            Err(e) => Some(e),
            Ok(_) => first_failure(f, bs.drop_first()),
        }
    }
}

/// Every block of `f` parses and creates the object its file is named after.
pub open spec fn file_conforms(f: SourceFile) -> bool {
    forall|i: int| 0 <= i < file_blocks(f).len() ==> block_unit(f, #[trigger] file_blocks(f)[i]) is Ok
}

/// The error each failing file contributes, file after file.
pub open spec fn tree_errors(files: Seq<SourceFile>) -> Seq<ErrorView>
    decreases files.len(),
{
    if files.len() == 0 {
        seq![]
    } else {
        tree_errors(files.drop_last()) + match first_failure(
            files[files.len() - 1],
            file_blocks(files[files.len() - 1]),
        ) {
            Some(e) => seq![e],
            None => seq![],
        }
    }
}

proof fn lemma_first_failure(f: SourceFile, bs: Seq<BlockView>)
    ensures
        first_failure(f, bs) is None <==> forall|i: int| 0 <= i < bs.len() ==> block_unit(f, #[trigger] bs[i]) is Ok,
    decreases bs.len(),
{
    if bs.len() > 0 {
        lemma_first_failure(f, bs.drop_first());
        if block_unit(f, bs[0]) is Ok {
            assert forall|i: int| 0 <= i < bs.len() && (forall|j: int| 0 <= j < bs.len() - 1 ==> block_unit(f, #[trigger] bs.drop_first()[j]) is Ok)
                implies block_unit(f, bs[i]) is Ok by {
                if i > 0 {
                    assert(bs.drop_first()[i - 1] == bs[i]);
                }
            }
            if forall|i: int| 0 <= i < bs.len() ==> block_unit(f, #[trigger] bs[i]) is Ok {
                assert forall|j: int| 0 <= j < bs.len() - 1 implies block_unit(f, #[trigger] bs.drop_first()[j]) is Ok by {
                    assert(bs.drop_first()[j] == bs[j + 1]);
                }
            }
        }
    }
}

/// A tree holds no failing file exactly when every file conforms.
pub proof fn lemma_tree_errors(files: Seq<SourceFile>)
    ensures
        tree_errors(files).len() == 0 <==> forall|i: int| 0 <= i < files.len() ==> file_conforms(#[trigger] files[i]),
    decreases files.len(),
{
    if files.len() > 0 {
        let init = files.drop_last();
        let last = files[files.len() - 1];
        lemma_tree_errors(init);
        lemma_first_failure(last, file_blocks(last));
        if forall|i: int| 0 <= i < files.len() ==> file_conforms(#[trigger] files[i]) {
            assert forall|i: int| 0 <= i < init.len() implies file_conforms(#[trigger] init[i]) by {
                assert(init[i] == files[i]);
            }
            assert(file_conforms(files[files.len() - 1]));
        }
        if tree_errors(files).len() == 0 {
            assert forall|i: int| 0 <= i < files.len() implies file_conforms(#[trigger] files[i]) by {
                if i < init.len() {
                    assert(init[i] == files[i]);
                }
            }
        }
    }
}

/// `r` failed with exactly the errors `v`.
pub open spec fn fails_with(r: Result<ExecutionPlan, Vec<SourceError>>, v: Seq<ErrorView>) -> bool {
    match r {
        Ok(_) => false,
        Err(es) => error_views(es@) == v,
    }
}

/// `r` failed with one duplicate-key error, for a key that occurs twice in `keys`.
pub open spec fn fails_with_duplicate(r: Result<ExecutionPlan, Vec<SourceError>>, keys: Seq<Seq<char>>) -> bool {
    match r {
        Ok(_) => false,
        Err(es) => es@.len() == 1 && match es@[0] {
            SourceError::DuplicateDefinition { key } => exists|i: int, j: int|
                0 <= i < j < keys.len() && keys[i] == key@ && keys[j] == key@,
            _ => false,
        },
    }
}

/// Parses and checks every file. Each file that fails contributes the error
/// of its first failing block and nothing else; if any failed, all those
/// errors are returned. Otherwise the units of all files, file after file,
/// are ordered: a duplicate key, a tree without units, or dependencies that
/// admit no order each give their one error.
pub fn order_source_files(files: &Vec<SourceFile>) -> (r: Result<ExecutionPlan, Vec<SourceError>>)
    ensures
        r matches Ok(plan) ==> plan_fits(plan, plan.objects@) && object_keys(plan.objects@)
            == tree_keys(files@) && object_deps(plan.objects@) == tree_deps(files@) && object_values(
            plan.objects@,
        ) == tree_values(files@),
        tree_errors(files@).len() == 0 <==> forall|i: int|
            0 <= i < files@.len() ==> file_conforms(#[trigger] files@[i]),
        tree_errors(files@).len() > 0 ==> fails_with(r, tree_errors(files@)),
        tree_errors(files@).len() == 0 && tree_keys(files@).len() == 0 ==> fails_with(
            r,
            seq![ErrorView::NoObjects],
        ),
        tree_errors(files@).len() == 0 && tree_keys(files@).len() > 0 && !tree_keys(files@).no_duplicates()
            ==> fails_with_duplicate(r, tree_keys(files@)),
        tree_errors(files@).len() == 0 && tree_keys(files@).len() > 0 && tree_keys(files@).no_duplicates()
            && !(exists|o: Seq<usize>| is_plan_order(o, tree_keys(files@), tree_deps(files@)))
            ==> fails_with(r, seq![ErrorView::CycleDetected]),
        tree_errors(files@).len() == 0 && tree_keys(files@).len() > 0 && tree_keys(files@).no_duplicates()
            && (exists|o: Seq<usize>| is_plan_order(o, tree_keys(files@), tree_deps(files@))) ==> r is Ok,
{
    proof {
        lemma_tree_errors(files@);
    }
    let start = "//// CHANGE";
    let end = "GO";
    let name = "name";
    proof {
        reveal_strlit("//// CHANGE");
        reveal_strlit("GO");
        reveal_strlit("name");
        assert(start@ =~= start_marker());
        assert(end@ =~= end_marker());
        assert(name@ =~= name_attribute());
    }
    let mut objects: Vec<DatabaseObject> = Vec::new();
    let mut errors: Vec<SourceError> = Vec::new();
    for i in 0..files.len()
        invariant
            start@ == start_marker(),
            end@ == end_marker(),
            name@ == name_attribute(),
            error_views(errors@) == tree_errors(files@.take(i as int)),
            errors@.len() == 0 ==> object_keys(objects@) == tree_keys(files@.take(i as int))
                && object_deps(objects@) == tree_deps(files@.take(i as int)) && object_values(objects@)
                == tree_values(files@.take(i as int)),
    {
        let f = &files[i];
        let blocks = parse_change_stmts(f.contents.as_str(), start, end, name);
        let mut units: Vec<DatabaseObject> = Vec::new();
        let mut failure: Option<SourceError> = None;
        let mut rest = blocks;
        let ghost bv = file_blocks(*f);
        let total = rest.len();
        let mut t: usize = 0;
        proof {
            assert(crate::change_block::block_views(rest@) == bv);
            assert(bv.skip(0) =~= bv);
        }
        while t < total && failure.is_none()
            invariant
                rest@.len() == total - t,
                t <= total,
                total == bv.len(),
                bv == file_blocks(*f),
                forall|q: int| 0 <= q < rest@.len() ==> rest@[q]@ == bv[t + q],
                failure is None ==> first_failure(*f, bv) == first_failure(*f, bv.skip(t as int)),
                failure is None ==> object_keys(units@) == file_keys(*f).take(t as int)
                    && object_deps(units@) == bv.map_values(|b: BlockView| b.deps).take(t as int)
                    && object_values(units@) == bv.map_values(|b: BlockView| b.value).take(t as int),
                failure matches Some(e) ==> first_failure(*f, bv) == Some(error_view(e)),
            decreases total - t,
        {
            let stmt: Stmt = rest.remove(0);
            proof {
                assert(stmt@ == bv[t as int]);
                assert(bv.skip(t as int)[0] == bv[t as int]);
                assert(bv.skip(t as int).drop_first() =~= bv.skip(t + 1));
            }
            match relational_object_conformance(&f.schema_name, &f.object_type, &f.object_name, stmt) {
                Ok(o) => {
                    let ghost u0 = units@;
                    units.push(o);
                    proof {
                        assert(object_keys(units@) =~= file_keys(*f).take(t + 1));
                        assert(object_deps(units@) =~= bv.map_values(|b: BlockView| b.deps).take(t + 1));
                        assert(object_values(units@) =~= bv.map_values(|b: BlockView| b.value).take(t + 1));
                    }
                },
                Err(e) => {
                    failure = Some(e);
                },
            }
            t = t + 1;
        }
        proof {
            if failure is None {
                assert(bv.skip(total as int) =~= Seq::<BlockView>::empty());
            }
            assert(file_keys(*f).take(total as int) =~= file_keys(*f));
            assert(bv.map_values(|b: BlockView| b.deps).take(total as int) =~= bv.map_values(|b: BlockView| b.deps));
            assert(bv.map_values(|b: BlockView| b.value).take(total as int) =~= bv.map_values(|b: BlockView| b.value));
            assert(files@.take(i + 1).drop_last() =~= files@.take(i as int));
            assert(files@.take(i + 1)[i as int] == *f);
        }
        match failure {
            Some(e) => {
                let ghost e0 = errors@;
                errors.push(e);
                proof {
                    assert(error_views(errors@) =~= error_views(e0).push(error_view(errors@[e0.len() as int])));
                    assert(error_views(errors@) =~= tree_errors(files@.take(i + 1)));
                }
            },
            None => {
                let ghost o0 = objects@;
                objects.append(&mut units);
                proof {
                    assert(error_views(errors@) =~= tree_errors(files@.take(i + 1)));
                    assert(object_keys(objects@) =~= object_keys(o0) + file_keys(*f));
                    assert(object_deps(objects@) =~= object_deps(o0) + bv.map_values(|b: BlockView| b.deps));
                    assert(object_values(objects@) =~= object_values(o0) + bv.map_values(|b: BlockView| b.value));
                }
            },
        }
    }
    proof {
        assert(files@.take(files@.len() as int) =~= files@);
    }
    if errors.len() > 0 {
        return Err(errors);
    }
    if objects.len() == 0 {
        errors.push(SourceError::NoObjects);
        proof {
            assert(error_views(errors@) =~= seq![ErrorView::NoObjects]);
        }
        return Err(errors);
    }
    match determine_execution_order(objects) {
        Ok(plan) => Ok(plan),
        Err(e) => {
            errors.push(e);
            proof {
                assert(errors@[0] == e);
                assert(error_views(errors@) =~= seq![error_view(e)]);
            }
            Err(errors)
        },
    }
}

} // verus!

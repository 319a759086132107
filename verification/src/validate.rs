//! The rule on byte vectors without a size: nothing that reads from the
//! stream may follow one.

use vstd::prelude::*;
use crate::layout::{BlockRow, FieldType, Row};
use crate::model::block_field_count;

verus! {

/// Why a record layout was rejected: a byte vector without a size takes all
/// remaining data, so nothing that reads from the stream may follow it.
/// Fields are named by their position among the record's fields.
#[derive(Clone, Copy, Debug, PartialEq, Eq, Structural)]
pub enum LayoutError {
    /// A second unsized byte vector `field` follows the unsized byte vector
    /// `first`.
    SecondUnsizedVec { field: usize, first: usize },
    /// The field `field` follows the unsized byte vector `vec`.
    FieldAfterUnsizedVec { field: usize, vec: usize },
    /// A `consume` directive follows the unsized byte vector `vec`.
    ConsumeAfterUnsizedVec { vec: usize },
}

/// The entries of a record in stream order, with the entries of each
/// optional block in place of the block.
pub open spec fn flatten(rows: Seq<Row>) -> Seq<BlockRow>
    decreases rows.len(),
{
    if rows.len() == 0 {
        Seq::empty()
    } else {
        flatten(rows.drop_last()) + row_entries(rows.last())
    }
}

pub open spec fn row_entries(row: Row) -> Seq<BlockRow> {
    match row {
        Row::Consume(e) => seq![BlockRow::Consume(e)],
        Row::Field(t) => seq![BlockRow::Field(t)],
        Row::Cond(_, block) => block@,
    }
}

pub open spec fn is_unsized_vec(e: BlockRow) -> bool {
    e matches BlockRow::Field(FieldType::Bytes(None))
}

/// Excluded fields read nothing from the stream.
pub open spec fn reads_nothing(e: BlockRow) -> bool {
    e matches BlockRow::Field(FieldType::Exclude(_))
}

/// `u` is the first unsized byte vector and `k` the first entry after it
/// that reads from the stream.
pub open spec fn violation_at(es: Seq<BlockRow>, u: int, k: int) -> bool {
    &&& 0 <= u < k < es.len()
    &&& is_unsized_vec(es[u])
    &&& forall|j: int| 0 <= j < u ==> !is_unsized_vec(#[trigger] es[j])
    &&& !reads_nothing(es[k])
    &&& forall|j: int| u < j < k ==> reads_nothing(#[trigger] es[j])
}

/// The position among the record's fields of the entry at `k`.
pub open spec fn field_index(es: Seq<BlockRow>, k: int) -> nat {
    block_field_count(es.subrange(0, k))
}

/// The error reported for the violation `(u, k)`.
pub open spec fn error_for(es: Seq<BlockRow>, u: int, k: int) -> LayoutError {
    let vec = field_index(es, u) as usize;
    if is_unsized_vec(es[k]) {
        LayoutError::SecondUnsizedVec { field: field_index(es, k) as usize, first: vec }
    } else if es[k] is Consume {
        LayoutError::ConsumeAfterUnsizedVec { vec }
    } else {
        LayoutError::FieldAfterUnsizedVec { field: field_index(es, k) as usize, vec }
    }
}

/// State of the scan after the entries `es`: the first unsized vector (its
/// entry and field position), if any, and no violation so far.
spec fn scan_ok(es: Seq<BlockRow>, seen: Option<(int, usize)>) -> bool {
    &&& match seen {
        Some((u, f)) => {
            &&& 0 <= u < es.len()
            &&& is_unsized_vec(es[u])
            &&& forall|j: int| 0 <= j < u ==> !is_unsized_vec(#[trigger] es[j])
            &&& forall|j: int| u < j < es.len() ==> reads_nothing(#[trigger] es[j])
            &&& f as nat == field_index(es, u)
        },
        None => forall|j: int| 0 <= j < es.len() ==> !is_unsized_vec(#[trigger] es[j]),
    }
}

proof fn lemma_field_index_extend(es: Seq<BlockRow>, e: BlockRow, u: int)
    requires
        0 <= u <= es.len(),
    ensures
        field_index(es.push(e), u) == field_index(es, u),
{
    assert(es.push(e).subrange(0, u) =~= es.subrange(0, u));
}

proof fn lemma_field_index_last(es: Seq<BlockRow>, e: BlockRow)
    ensures
        field_index(es.push(e), es.len() as int) == block_field_count(es),
{
    assert(es.push(e).subrange(0, es.len() as int) =~= es);
}

/// One entry `e` in the scan (`ty` is its field type, if it is a field):
/// `es` were seen before it, `nfields` of them are fields.
fn check_entry(
    ty: Option<&FieldType>,
    seen: &mut Option<usize>,
    nfields: &mut usize,
    Ghost(e): Ghost<BlockRow>,
    Ghost(es): Ghost<Seq<BlockRow>>,
    Ghost(u): Ghost<int>,
) -> (res: Result<(), LayoutError>)
    requires
        match e {
            BlockRow::Consume(_) => ty is None,
            BlockRow::Field(t) => ty == Some(&t),
        },
        *old(nfields) as nat == block_field_count(es),
        *old(nfields) < usize::MAX,
        scan_ok(es, match *old(seen) { Some(f) => Some((u, f)), None => None }),
    ensures
        res is Ok ==> {
            &&& scan_ok(es.push(e), match *final(seen) { Some(f) => Some((if *old(seen) is Some { u } else { es.len() as int }, f)), None => None })
            &&& *final(nfields) as nat == block_field_count(es.push(e))
            &&& (*final(seen) is Some) == ((*old(seen) is Some) || is_unsized_vec(e))
        },
        res is Err ==> {
            &&& *old(seen) is Some
            &&& violation_at(es.push(e), u, es.len() as int)
            &&& res->Err_0 == error_for(es.push(e), u, es.len() as int)
        },
{
    let ghost es2 = es.push(e);
    proof {
        assert(es2.drop_last() =~= es);
        assert(es2[es.len() as int] == e);
        assert forall|j: int| 0 <= j < es.len() implies #[trigger] es2[j] == es[j] by {}
        lemma_field_index_last(es, e);
    }
    match ty {
        None => {
            match *seen {
                Some(f) => {
                    proof {
                        lemma_field_index_extend(es, e, u);
                    }
                    Err(LayoutError::ConsumeAfterUnsizedVec { vec: f })
                },
                None => Ok(()),
            }
        },
        Some(ty) => {
            let idx = *nfields;
            *nfields = *nfields + 1;
            match ty {
                FieldType::Exclude(_) => {
                    proof {
                        if let Some(f) = *seen {
                            lemma_field_index_extend(es, e, u);
                        }
                    }
                    Ok(())
                },
                FieldType::Bytes(None) => {
                    match *seen {
                        Some(f) => {
                            proof {
                                lemma_field_index_extend(es, e, u);
                            }
                            Err(LayoutError::SecondUnsizedVec { field: idx, first: f })
                        },
                        None => {
                            *seen = Some(idx);
                            Ok(())
                        },
                    }
                },
                _ => {
                    match *seen {
                        Some(f) => {
                            proof {
                                lemma_field_index_extend(es, e, u);
                            }
                            Err(LayoutError::FieldAfterUnsizedVec { field: idx, vec: f })
                        },
                        None => Ok(()),
                    }
                },
            }
        },
    }
}

} // verus!

verus! {

proof fn lemma_field_count_bound(es: Seq<BlockRow>)
    ensures
        block_field_count(es) <= es.len(),
    decreases es.len(),
{
    if es.len() > 0 {
        lemma_field_count_bound(es.drop_last());
    }
}

proof fn lemma_flatten_step(rows: Seq<Row>, i: int)
    requires
        0 <= i < rows.len(),
    ensures
        flatten(rows.take(i + 1)) == flatten(rows.take(i)) + row_entries(rows[i]),
{
    assert(rows.take(i + 1).drop_last() =~= rows.take(i));
}

proof fn lemma_flatten_prefix(rows: Seq<Row>, i: int)
    requires
        0 <= i <= rows.len(),
    ensures
        flatten(rows.take(i)).len() <= flatten(rows).len(),
        flatten(rows).take(flatten(rows.take(i)).len() as int) == flatten(rows.take(i)),
    decreases rows.len() - i,
{
    if i == rows.len() {
        assert(rows.take(i) =~= rows);
        assert(flatten(rows).take(flatten(rows).len() as int) =~= flatten(rows));
    } else {
        lemma_flatten_prefix(rows, i + 1);
        lemma_flatten_step(rows, i);
        let a = flatten(rows.take(i));
        let b = flatten(rows.take(i + 1));
        assert(b.take(a.len() as int) =~= a);
        assert(flatten(rows).take(a.len() as int) =~= b.take(a.len() as int));
    }
}

/// A violation within a prefix is a violation of the whole entry sequence,
/// reported the same way.
proof fn lemma_violation_prefix(es: Seq<BlockRow>, full: Seq<BlockRow>, u: int, k: int)
    requires
        es.len() <= full.len(),
        full.take(es.len() as int) == es,
        violation_at(es, u, k),
    ensures
        violation_at(full, u, k),
        error_for(full, u, k) == error_for(es, u, k),
{
    assert forall|j: int| 0 <= j < es.len() implies #[trigger] full[j] == es[j] by {
        assert(full.take(es.len() as int)[j] == full[j]);
    }
    assert(full.subrange(0, k) =~= es.subrange(0, k));
    assert(full.subrange(0, u) =~= es.subrange(0, u));
}

/// Checks that nothing that reads from the stream follows a byte vector
/// without a size, and that there is at most one such vector; excluded
/// fields may follow it. Reports the first offending entry.
pub fn validate_unsized_vecs(rows: &Vec<Row>) -> (res: Result<(), LayoutError>)
    requires
        flatten(rows@).len() < usize::MAX,
    ensures
        res == entries_check(flatten(rows@)),
{
    let ghost full = flatten(rows@);
    match scan_rows(rows) {
        Ok(_) => {
            proof {
                assert(!exists|u: int, k: int| violation_at(full, u, k));
            }
            Ok(())
        },
        Err(e) => {
            proof {
                let (u, k) = choose|u: int, k: int| violation_at(full, u, k) && e == error_for(full, u, k);
                assert(violation_at(full, u, k));
                let (a, b) = choose|a: int, b: int| violation_at(full, a, b);
                assert(violation_at(full, a, b));
                lemma_violation_unique(full, a, b, u, k);
            }
            Err(e)
        },
    }
}

fn scan_rows(rows: &Vec<Row>) -> (res: Result<(), LayoutError>)
    requires
        flatten(rows@).len() < usize::MAX,
    ensures
        res is Ok <==> !exists|u: int, k: int| violation_at(flatten(rows@), u, k),
        res is Err ==> exists|u: int, k: int|
            violation_at(flatten(rows@), u, k) && res->Err_0 == error_for(flatten(rows@), u, k),
{
    let ghost full = flatten(rows@);
    let mut seen: Option<usize> = None;
    let mut nfields: usize = 0;
    let ghost mut u: int = 0;
    let ghost mut es: Seq<BlockRow> = Seq::empty();
    let mut i: usize = 0;
    proof {
        assert(rows@.take(0) =~= Seq::<Row>::empty());
        assert(block_field_count(Seq::<BlockRow>::empty()) == 0);
    }
    while i < rows.len()
        invariant
            full == flatten(rows@),
            full.len() < usize::MAX,
            i <= rows@.len(),
            es == flatten(rows@.take(i as int)),
            nfields as nat == block_field_count(es),
            scan_ok(es, match seen { Some(f) => Some((u, f)), None => None }),
        decreases rows@.len() - i,
    {
        proof {
            lemma_flatten_step(rows@, i as int);
            lemma_flatten_prefix(rows@, (i + 1) as int);
            lemma_flatten_prefix(rows@, i as int);
            lemma_field_count_bound(es);
        }
        let ghost next = flatten(rows@.take(i + 1));
        match &rows[i] {
            Row::Consume(_) | Row::Field(_) => {
                let ghost e = row_entries(rows@[i as int])[0];
                let ghost had = seen is Some;
                proof {
                    assert(next =~= es.push(e));
                }
                let ty: Option<&FieldType> = match &rows[i] {
                    Row::Field(t) => Some(t),
                    _ => None,
                };
                match check_entry(ty, &mut seen, &mut nfields, Ghost(e), Ghost(es), Ghost(u)) {
                    Ok(()) => {
                        proof {
                            if !had && seen is Some {
                                u = es.len() as int;
                            }
                            es = next;
                        }
                    },
                    Err(x) => {
                        proof {
                            lemma_violation_prefix(next, full, u, es.len() as int);
                        }
                        return Err(x);
                    },
                }
            },
            Row::Cond(_, block) => {
                let mut j: usize = 0;
                let ghost base = es;
                while j < block.len()
                    invariant
                        full == flatten(rows@),
                        full.len() < usize::MAX,
                        i < rows@.len(),
                        rows@[i as int] == Row::Cond(rows@[i as int]->Cond_0, *block),
                        next == flatten(rows@.take(i + 1)),
                        next == base + block@,
                        next.len() <= full.len(),
                        full.take(next.len() as int) == next,
                        j <= block@.len(),
                        es == base + block@.take(j as int),
                        nfields as nat == block_field_count(es),
                                    scan_ok(es, match seen { Some(f) => Some((u, f)), None => None }),
                    decreases block@.len() - j,
                {
                    let ghost had = seen is Some;
                    proof {
                        assert(base + block@.take(j + 1) =~= es.push(block@[j as int]));
                        lemma_field_count_bound(es);
                        assert(es.len() < next.len());
                    }
                    let ty: Option<&FieldType> = match &block[j] {
                        BlockRow::Field(t) => Some(t),
                        _ => None,
                    };
                    match check_entry(ty, &mut seen, &mut nfields, Ghost(block@[j as int]), Ghost(es), Ghost(u)) {
                        Ok(()) => {
                            proof {
                                if !had && seen is Some {
                                    u = es.len() as int;
                                }
                                es = base + block@.take(j + 1);
                            }
                        },
                        Err(x) => {
                            proof {
                                let p = es.push(block@[j as int]);
                                assert(next.take(p.len() as int) =~= p);
                                assert(full.take(p.len() as int) =~= p);
                                lemma_violation_prefix(p, full, u, es.len() as int);
                            }
                            return Err(x);
                        },
                    }
                    j = j + 1;
                }
                proof {
                    assert(block@.take(block@.len() as int) =~= block@);
                }
            },
        }
        i = i + 1;
    }
    proof {
        assert(rows@.take(rows@.len() as int) =~= rows@);
        assert forall|a: int, b: int| !violation_at(full, a, b) by {
            if violation_at(full, a, b) {
                match seen {
                    Some(f) => {
                        if a < u {
                        } else if u < a {
                        } else {
                        }
                    },
                    None => {},
                }
            }
        }
    }
    Ok(())
}


/// The outcome of checking the entries `es`: the error for its violation,
/// if there is one (there is at most one, see `lemma_violation_unique`).
pub open spec fn entries_check(es: Seq<BlockRow>) -> Result<(), LayoutError> {
    if exists|u: int, k: int| violation_at(es, u, k) {
        let (u, k) = choose|u: int, k: int| violation_at(es, u, k);
        Err(error_for(es, u, k))
    } else {
        Ok(())
    }
}

/// A sequence of entries has at most one violation.
pub proof fn lemma_violation_unique(es: Seq<BlockRow>, u1: int, k1: int, u2: int, k2: int)
    requires
        violation_at(es, u1, k1),
        violation_at(es, u2, k2),
    ensures
        u1 == u2,
        k1 == k2,
{
    if u1 < u2 {
        assert(!is_unsized_vec(es[u1]));
    } else if u2 < u1 {
        assert(!is_unsized_vec(es[u2]));
    }
    if k1 < k2 {
        assert(reads_nothing(es[k1]));
    } else if k2 < k1 {
        assert(reads_nothing(es[k2]));
    }
}

/// Checks a flat sequence of record entries the way
/// `validate_unsized_vecs` checks a record's rows.
pub fn validate_entries(es: &Vec<BlockRow>) -> (res: Result<(), LayoutError>)
    ensures
        res == entries_check(es@),
{
    let n = es.len();
    let mut seen: Option<usize> = None;
    let mut nfields: usize = 0;
    let ghost mut u: int = 0;
    let ghost mut done: Seq<BlockRow> = Seq::empty();
    let mut j: usize = 0;
    proof {
        assert(block_field_count(Seq::<BlockRow>::empty()) == 0);
    }
    while j < n
        invariant
            n == es@.len(),
            j <= es@.len(),
            done == es@.take(j as int),
            nfields as nat == block_field_count(done),
            scan_ok(done, match seen { Some(f) => Some((u, f)), None => None }),
        decreases es@.len() - j,
    {
        let ghost had = seen is Some;
        proof {
            assert(es@.take(j + 1) =~= done.push(es@[j as int]));
            lemma_field_count_bound(done);
        }
        let ty: Option<&FieldType> = match &es[j] {
            BlockRow::Field(t) => Some(t),
            _ => None,
        };
        match check_entry(ty, &mut seen, &mut nfields, Ghost(es@[j as int]), Ghost(done), Ghost(u)) {
            Ok(()) => {
                proof {
                    if !had && seen is Some {
                        u = done.len() as int;
                    }
                    done = es@.take(j + 1);
                }
            },
            Err(x) => {
                proof {
                    let p = done.push(es@[j as int]);
                    assert(es@.take(p.len() as int) =~= p);
                    lemma_violation_prefix(p, es@, u, done.len() as int);
                    let (a, b) = choose|a: int, b: int| violation_at(es@, a, b);
                    lemma_violation_unique(es@, a, b, u, done.len() as int);
                }
                return Err(x);
            },
        }
        j = j + 1;
    }
    proof {
        assert(es@.take(es@.len() as int) =~= es@);
        assert forall|a: int, b: int| !violation_at(es@, a, b) by {
            if violation_at(es@, a, b) {
                match seen {
                    Some(f) => {
                        if a < u {
                        } else if u < a {
                        } else {
                        }
                    },
                    None => {},
                }
            }
        }
    }
    Ok(())
}

} // verus!

//! What lookups make of the rows they read.
use vstd::prelude::*;

verus! {

/// The outcome of a direct fetch by id that found no row.
#[derive(Debug, Clone, Copy, PartialEq, Eq, Structural)]
pub enum LookupError {
    NotFound,
}

/// The stored bytes of a fetch by id, or `NotFound` where no row came back.
pub fn fetch_result(row: Option<Vec<u8>>) -> (r: Result<Vec<u8>, LookupError>)
    ensures
        match row {
            Some(bytes) => r == Ok::<Vec<u8>, LookupError>(bytes),
            None => r == Err::<Vec<u8>, LookupError>(LookupError::NotFound),
        },
{
    match row {
        Some(bytes) => Ok(bytes),
        None => Err(LookupError::NotFound),
    }
}

/// Reads the value of a `SELECT EXISTS(...)` column: the row exists iff it is 1.
pub fn exists_flag(value: u8) -> (r: bool)
    ensures
        r == (value == 1),
{
    value == 1
}

/// Whether an event counts as already saved: the index reports its id deleted,
/// or the existence query found its row.
pub fn already_saved(deleted_in_index: bool, exists_column: u8) -> (r: bool)
    ensures
        r == (deleted_in_index || exists_column == 1),
{
    deleted_in_index || exists_flag(exists_column)
}

/// The views of a list of strings.
pub open spec fn strings_view(s: Seq<String>) -> Seq<Seq<char>> {
    s.map_values(|x: String| x@)
}

/// Whether `s` holds a string equal to `x`.
fn holds(s: &Vec<String>, x: &String) -> (r: bool)
    ensures
        r == strings_view(s@).contains(x@),
{
    let mut i: usize = 0;
    while i < s.len()
        invariant
            i <= s@.len(),
            forall|j: int| 0 <= j < i ==> s@[j]@ != x@,
        decreases s@.len() - i,
    {
        if s[i] == *x {
            assert(strings_view(s@)[i as int] == x@);
            return true;
        }
        i = i + 1;
    }
    proof {
        if strings_view(s@).contains(x@) {
            let j = choose|j: int| 0 <= j < s@.len() && strings_view(s@)[j] == x@;
            assert(s@[j]@ == x@);
        }
    }
    false
}

/// The relay urls of an event's sightings, each once.
pub fn distinct_relays(rows: &Vec<String>) -> (r: Vec<String>)
    ensures
        strings_view(r@).no_duplicates(),
        strings_view(r@).to_set() == strings_view(rows@).to_set(),
{
    let mut r: Vec<String> = Vec::new();
    let mut i: usize = 0;
    while i < rows.len()
        invariant
            i <= rows@.len(),
            strings_view(r@).no_duplicates(),
            strings_view(r@).to_set() == strings_view(rows@.take(i as int)).to_set(),
        decreases rows@.len() - i,
    {
        let ghost before = r@;
        if !holds(&r, &rows[i]) {
            r.push(rows[i].clone());
            assert(strings_view(r@) =~= strings_view(before).push(rows@[i as int]@));
        }
        assert(strings_view(rows@.take(i + 1)) =~= strings_view(rows@.take(i as int)).push(rows@[i as int]@));
        assert(strings_view(r@).to_set() =~= strings_view(rows@.take(i + 1)).to_set()) by {
            assert forall|x| strings_view(rows@.take(i + 1)).to_set().contains(x) <==> strings_view(rows@.take(i as int)).to_set().insert(rows@[i as int]@).contains(x) by {
                let a = strings_view(rows@.take(i as int));
                let b = strings_view(rows@.take(i + 1));
                if b.contains(x) {
                    let j = choose|j: int| 0 <= j < b.len() && b[j] == x;
                    if j < a.len() {
                        assert(a[j] == x);
                    }
                }
                if a.contains(x) {
                    let j = choose|j: int| 0 <= j < a.len() && a[j] == x;
                    assert(b[j] == x);
                }
                if x == rows@[i as int]@ {
                    assert(b[i as int] == x);
                }
            }
            assert forall|x| strings_view(r@).to_set().contains(x) <==> strings_view(before).to_set().insert(rows@[i as int]@).contains(x) by {
                let a = strings_view(before);
                let b = strings_view(r@);
                if b.contains(x) {
                    let j = choose|j: int| 0 <= j < b.len() && b[j] == x;
                    if j < a.len() {
                        assert(a[j] == x);
                    }
                }
                if a.contains(x) {
                    let j = choose|j: int| 0 <= j < a.len() && a[j] == x;
                    assert(b[j] == x);
                }
                if x == rows@[i as int]@ && b.len() > a.len() {
                    assert(b[a.len() as int] == x);
                }
            }
        }
        i = i + 1;
    }
    assert(rows@.take(i as int) =~= rows@);
    r
}

/// All decoded records, or the first decode error: a single failure aborts the
/// whole load, so no partial collection is ever handed on.
pub fn all_decoded<T, E>(results: Vec<Result<T, E>>) -> (r: Result<Vec<T>, E>)
    ensures
        r is Ok ==> r->Ok_0@.len() == results@.len() && forall|i: int|
            0 <= i < results@.len() ==> results@[i] == Ok::<T, E>(r->Ok_0@[i]),
        r is Err ==> exists|k: int|
            0 <= k < results@.len() && results@[k] == Err::<T, E>(r->Err_0) && forall|j: int|
                0 <= j < k ==> results@[j] is Ok,
{
    let ghost all = results@;
    let mut rest = results;
    let mut out: Vec<T> = Vec::new();
    while rest.len() > 0
        invariant
            all == results@,
            all.len() == out@.len() + rest@.len(),
            rest@ == all.skip(out@.len() as int),
            forall|i: int| 0 <= i < out@.len() ==> all[i] == Ok::<T, E>(out@[i]),
        decreases rest@.len(),
    {
        let ghost k = out@.len() as int;
        let item = rest.remove(0);
        assert(all[k] == item) by {
            assert(all.skip(k)[0] == all[k]);
        }
        match item {
            Ok(v) => {
                out.push(v);
            },
            Err(e) => {
                assert forall|j: int| 0 <= j < k implies all[j] is Ok by {
                    assert(all[j] == Ok::<T, E>(out@[j]));
                }
                let ghost err = Err::<T, E>(e);
                assert(all[k] == err);
                return Err(e);
            },
        }
        assert(rest@ =~= all.skip(out@.len() as int));
    }
    Ok(out)
}

} // verus!

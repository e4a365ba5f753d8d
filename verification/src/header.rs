//! Reading the header row: which columns identify the well, which are ignored,
//! and which are features.

use crate::errors::HistDiffError;
use crate::names::{first_index, is_first_index, lemma_first_index_is, names_of, occurs, position};
use vstd::prelude::*;

verus! {

/// The column positions of a table, by the part each column plays.
#[derive(Debug, Clone)]
pub struct HeaderLayout {
    /// For each identifier column, in the order configured, its position.
    pub id_col_idx: Vec<usize>,
    /// The positions of the ignored columns that the header has.
    pub useless_idx: Vec<usize>,
    /// The positions of the feature columns, ascending.
    pub feature_idx: Vec<usize>,
}

/// Every name of `wanted` stands in `headers`.
pub open spec fn all_occur(headers: Seq<Seq<char>>, wanted: Seq<Seq<char>>) -> bool {
    forall|k: int| 0 <= k < wanted.len() ==> occurs(headers, #[trigger] wanted[k])
}

/// The first places in `headers` of those names of `wanted` that stand there,
/// in the order of `wanted`.
pub open spec fn found_positions(headers: Seq<Seq<char>>, wanted: Seq<Seq<char>>) -> Seq<int>
    decreases wanted.len(),
{
    if wanted.len() == 0 {
        Seq::empty()
    } else {
        let rest = found_positions(headers, wanted.drop_last());
        if occurs(headers, wanted.last()) {
            rest.push(first_index(headers, wanted.last()))
        } else {
            rest
        }
    }
}

/// The positions as mathematical integers.
pub open spec fn places(v: Seq<usize>) -> Seq<int> {
    Seq::new(v.len(), |i: int| v[i] as int)
}

/// The names of the ignored columns, none where none were configured.
pub open spec fn ignored_names(useless_cols: Option<Vec<String>>) -> Seq<Seq<char>> {
    match useless_cols {
        Some(cols) => names_of(cols@),
        None => Seq::empty(),
    }
}

/// `features` lists, ascending, exactly the positions below `width` that are
/// neither in `ids` nor in `ignored`.
pub open spec fn is_feature_list(
    features: Seq<int>,
    width: int,
    ids: Seq<int>,
    ignored: Seq<int>,
) -> bool {
    &&& forall|a: int, b: int| 0 <= a < b < features.len() ==> features[a] < features[b]
    &&& forall|p: int|
        features.contains(p) <==> (0 <= p < width && !ids.contains(p) && !ignored.contains(p))
}

/// `layout` is the reading of `headers` under the configured names.
pub open spec fn is_layout_of(
    layout: HeaderLayout,
    headers: Seq<Seq<char>>,
    id_cols: Seq<Seq<char>>,
    ignored: Seq<Seq<char>>,
) -> bool {
    &&& layout.id_col_idx@.len() == id_cols.len()
    &&& forall|k: int|
        0 <= k < id_cols.len() ==> is_first_index(
            headers,
            id_cols[k],
            #[trigger] layout.id_col_idx@[k] as int,
        )
    &&& places(layout.useless_idx@) == found_positions(headers, ignored)
    &&& is_feature_list(
        places(layout.feature_idx@),
        headers.len() as int,
        places(layout.id_col_idx@),
        places(layout.useless_idx@),
    )
}

/// Says whether `p` is one of `list`.
pub fn contains_index(list: &Vec<usize>, p: usize) -> (r: bool)
    ensures
        r == places(list@).contains(p as int),
{
    let n: usize = list.len();
    let mut i: usize = 0;
    while i < n
        invariant
            i <= n,
            n == list@.len(),
            forall|j: int| 0 <= j < i ==> list@[j] != p,
        decreases n - i,
    {
        if list[i] == p {
            assert(places(list@)[i as int] == p as int);
            return true;
        }
        i = i + 1;
    }
    false
}

/// Reads the header row. Fails with `MissingIdColumn` exactly when an
/// identifier column is absent; ignored columns that are absent are passed over.
pub fn resolve_header(
    headers: &Vec<String>,
    id_cols: &Vec<String>,
    useless_cols: &Option<Vec<String>>,
) -> (res: Result<HeaderLayout, HistDiffError>)
    ensures
        match res {
            Ok(layout) => all_occur(names_of(headers@), names_of(id_cols@)) && is_layout_of(
                layout,
                names_of(headers@),
                names_of(id_cols@),
                ignored_names(*useless_cols),
            ),
            Err(e) => e == HistDiffError::MissingIdColumn && !all_occur(
                names_of(headers@),
                names_of(id_cols@),
            ),
        },
{
    let ghost names = names_of(headers@);
    let ghost ids = names_of(id_cols@);
    let mut id_col_idx: Vec<usize> = Vec::new();
    let mut k: usize = 0;
    while k < id_cols.len()
        invariant
            k <= id_cols@.len(),
            names == names_of(headers@),
            ids == names_of(id_cols@),
            id_col_idx@.len() == k,
            forall|j: int|
                0 <= j < k ==> is_first_index(names, ids[j], #[trigger] id_col_idx@[j] as int),
        decreases id_cols@.len() - k,
    {
        match position(headers.as_slice(), &id_cols[k]) {
            Some(p) => {
                id_col_idx.push(p);
            },
            None => {
                assert(!occurs(names, ids[k as int]));
                return Err(HistDiffError::MissingIdColumn);
            },
        }
        k = k + 1;
    }
    proof {
        assert forall|j: int| 0 <= j < ids.len() implies occurs(names, #[trigger] ids[j]) by {
            lemma_first_index_is(names, ids[j], id_col_idx@[j] as int);
        }
    }
    let ghost ignored = ignored_names(*useless_cols);
    let mut useless_idx: Vec<usize> = Vec::new();
    match useless_cols {
        Some(cols) => {
            let mut u: usize = 0;
            while u < cols.len()
                invariant
                    u <= cols@.len(),
                    names == names_of(headers@),
                    ignored == names_of(cols@),
                    places(useless_idx@) == found_positions(names, ignored.take(u as int)),
                decreases cols@.len() - u,
            {
                proof {
                    assert(ignored.take(u + 1).drop_last() =~= ignored.take(u as int));
                }
                match position(headers.as_slice(), &cols[u]) {
                    Some(p) => {
                        let ghost before = places(useless_idx@);
                        useless_idx.push(p);
                        proof {
                            lemma_first_index_is(names, cols@[u as int]@, p as int);
                        }
                    },
                    None => {},
                }
                u = u + 1;
            }
            assert(ignored.take(cols@.len() as int) =~= ignored);
        },
        None => {
            assert(places(useless_idx@) =~= Seq::<int>::empty());
        },
    }
    let width: usize = headers.len();
    let mut feature_idx: Vec<usize> = Vec::new();
    let mut p: usize = 0;
    while p < width
        invariant
            p <= width,
            width == headers@.len(),
            forall|a: int, b: int|
                0 <= a < b < feature_idx@.len() ==> feature_idx@[a] < feature_idx@[b],
            forall|a: int| 0 <= a < feature_idx@.len() ==> feature_idx@[a] < p,
            forall|q: int|
                places(feature_idx@).contains(q) <==> (0 <= q < p && !places(
                    id_col_idx@,
                ).contains(q) && !places(useless_idx@).contains(q)),
        decreases width - p,
    {
        let is_id = contains_index(&id_col_idx, p);
        let is_ignored = contains_index(&useless_idx, p);
        let ghost before = places(feature_idx@);
        if !is_id && !is_ignored {
            feature_idx.push(p);
            proof {
                let after = places(feature_idx@);
                assert(after =~= before.push(p as int));
                assert forall|q: int| after.contains(q) <==> (before.contains(q) || q == p) by {
                    if before.contains(q) {
                        let j = choose|j: int| 0 <= j < before.len() && before[j] == q;
                        assert(after[j] == q);
                    }
                    if q == p {
                        assert(after[after.len() - 1] == q);
                    }
                }
            }
        }
        p = p + 1;
    }
    let layout = HeaderLayout { id_col_idx, useless_idx, feature_idx };
    Ok(layout)
}

} // verus!

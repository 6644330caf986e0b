//! The persisted taxonomy store: answers the same query contract as the
//! in-memory forest, but from the materialized-path rows of the
//! persisted table.  A row's ancestry column holds the `/`-joined id
//! path from the root down to the immediate parent; descendant tests
//! check the path's tokens, and ancestor walks split and reverse the
//! path instead of chasing pointers.  The rows are validated once, when
//! the store is built from the loaded table.

use vstd::prelude::*;
use crate::codec::{parse_ancestry, spec_parse_ancestry};
use crate::distance::{RankClass, chain_view, chain_with_ranks, distance_walk, rank_class_of,
    rank_is_canonical};
use crate::errors::NcbiTaxonomyError;
use crate::model::{TaxonModel, model_wf, model_node_ok};
use crate::models::Taxon;
use crate::text::str_eq;

verus! {

/// One validated row: the ancestry column already split and reversed,
/// so the ancestor chain runs nearest-first like the model's.
pub(crate) struct RowData {
    pub(crate) id: i32,
    pub(crate) ancestors: Vec<i32>,
    pub(crate) name: String,
    pub(crate) rank: Option<String>,
}

/// The nearest-first ancestor chain a row's ancestry column encodes, if
/// the column parses.
pub open spec fn spec_row_chain(ancestry: Option<Seq<char>>) -> Option<Seq<int>> {
    match ancestry {
        None => Some(Seq::<int>::empty()),
        Some(s) => match spec_parse_ancestry(s) {
            None => None,
            Some(ids) => Some(ids.reverse()),
        },
    }
}

/// The ancestry column of a row, viewed.
pub open spec fn spec_taxon_ancestry(t: Taxon) -> Option<Seq<char>> {
    match t.ancestry {
        Some(s) => Some(s@),
        None => None,
    }
}

pub(crate) open spec fn anc_view(r: RowData) -> Seq<int> {
    r.ancestors@.map_values(|x: i32| x as int)
}

pub(crate) open spec fn rows_has(rs: Seq<RowData>, id: int) -> bool {
    exists|p: int| 0 <= p < rs.len() && (#[trigger] rs[p]).id as int == id
}

pub(crate) open spec fn rows_idx(rs: Seq<RowData>, id: int) -> int {
    choose|p: int| 0 <= p < rs.len() && (#[trigger] rs[p]).id as int == id
}

pub(crate) open spec fn row_model(r: RowData) -> TaxonModel {
    TaxonModel {
        ancestors: anc_view(r),
        name: Some(r.name@),
        rank: match r.rank {
            Some(s) => Some(s@),
            None => None,
        },
    }
}

pub(crate) open spec fn rows_model(rs: Seq<RowData>) -> Map<int, TaxonModel> {
    Map::new(|id: int| rows_has(rs, id), |id: int| row_model(rs[rows_idx(rs, id)]))
}

/// Exactly one row carries name `n`.
pub(crate) open spec fn unique_name(rs: Seq<RowData>, n: Seq<char>) -> bool {
    exists|p: int|
        0 <= p < rs.len() && (#[trigger] rs[p]).name@ == n && (forall|q: int|
            0 <= q < rs.len() && (#[trigger] rs[q]).name@ == n ==> q == p)
}

pub(crate) open spec fn rows_names(rs: Seq<RowData>) -> Map<Seq<char>, int> {
    Map::new(
        |n: Seq<char>| unique_name(rs, n),
        |n: Seq<char>| rs[choose|p: int| 0 <= p < rs.len() && (#[trigger] rs[p]).name@ == n].id
            as int,
    )
}

/// The validated-store invariant: ids unique, chains short enough to
/// count in an `i32`, and each chain coherent with its parent's row.
pub(crate) open spec fn rows_wf(rs: Seq<RowData>) -> bool {
    &&& (forall|p: int, q: int|
        0 <= p < rs.len() && 0 <= q < rs.len() && p != q ==> (#[trigger] rs[p]).id != (
        #[trigger] rs[q]).id)
    &&& (forall|p: int| 0 <= p < rs.len() ==> (#[trigger] rs[p]).ancestors@.len() <= 0x7fff_ffff)
    &&& (forall|p: int|
        0 <= p < rs.len() ==> (anc_view(#[trigger] rs[p]).len() > 0 ==> rows_has(
            rs,
            anc_view(rs[p])[0],
        ) && anc_view(rs[rows_idx(rs, anc_view(rs[p])[0])]) == anc_view(rs[p]).drop_first()))
}

pub(crate) proof fn lemma_rows_idx(rs: Seq<RowData>, id: int)
    requires
        rows_has(rs, id),
    ensures
        0 <= rows_idx(rs, id) < rs.len(),
        rs[rows_idx(rs, id)].id as int == id,
{
}

pub(crate) proof fn lemma_rows_idx_of(rs: Seq<RowData>, p: int)
    requires
        forall|a: int, b: int|
            0 <= a < rs.len() && 0 <= b < rs.len() && a != b ==> (#[trigger] rs[a]).id != (
            #[trigger] rs[b]).id,
        0 <= p < rs.len(),
    ensures
        rows_has(rs, rs[p].id as int),
        rows_idx(rs, rs[p].id as int) == p,
{
    assert(rows_has(rs, rs[p].id as int));
    lemma_rows_idx(rs, rs[p].id as int);
    let q = rows_idx(rs, rs[p].id as int);
    if q != p {
        assert(rs[p].id != rs[q].id);
    }
}

/// The persisted taxonomy store, built from the loaded table rows.
pub struct NcbiSqliteTaxonomy {
    pub(crate) rows: Vec<RowData>,
}

impl NcbiSqliteTaxonomy {
    /// The store invariant.
    pub closed spec fn inv(&self) -> bool {
        rows_wf(self.rows@)
    }

    /// The abstract taxonomy this store answers for.
    pub closed spec fn spec_model(&self) -> Map<int, TaxonModel> {
        rows_model(self.rows@)
    }

    /// The name index: only a name carried by exactly one row resolves.
    pub closed spec fn spec_names(&self) -> Map<Seq<char>, int> {
        rows_names(self.rows@)
    }

    /// A well-formed row set models a well-formed taxonomy.
    pub proof fn lemma_inv_model_wf(&self)
        requires
            self.inv(),
        ensures
            model_wf(self.spec_model()),
            forall|n: Seq<char>| #[trigger]
                self.spec_names().contains_key(n) ==> self.spec_model().contains_key(
                    self.spec_names()[n],
                ),
    {
        let rs = self.rows@;
        let m = self.spec_model();
        assert forall|id: int| #[trigger] m.contains_key(id) implies model_node_ok(m, id) by {
            let p = rows_idx(rs, id);
            lemma_rows_idx(rs, id);
            let a = anc_view(rs[p]);
            if a.len() > 0 {
                let pp = rows_idx(rs, a[0]);
                lemma_rows_idx(rs, a[0]);
                assert(m.contains_key(a[0]));
                assert(m[a[0]].ancestors == anc_view(rs[pp]));
            }
            crate::model::lemma_node_ok_fold(m, id);
        }
        assert forall|n: Seq<char>| #[trigger]
            self.spec_names().contains_key(n) implies self.spec_model().contains_key(
            self.spec_names()[n],
        ) by {
            let p = choose|p: int| 0 <= p < rs.len() && (#[trigger] rs[p]).name@ == n;
            lemma_rows_idx_of(rs, p);
        }
    }

    /// The row index of a taxon id, when the table holds it.
    pub(crate) fn find_row(&self, taxid: i32) -> (r: Option<usize>)
        requires
            self.inv(),
        ensures
            match r {
                Some(p) => {
                    &&& p < self.rows@.len()
                    &&& self.rows@[p as int].id == taxid
                    &&& self.spec_model().contains_key(taxid as int)
                    &&& rows_idx(self.rows@, taxid as int) == p as int
                },
                None => !self.spec_model().contains_key(taxid as int),
            },
    {
        let ghost rs = self.rows@;
        let n = self.rows.len();
        let mut p: usize = 0;
        while p < n
            invariant
                p <= n,
                n == rs.len(),
                rs == self.rows@,
                self.inv(),
                forall|q: int| 0 <= q < p ==> (#[trigger] rs[q]).id != taxid,
            decreases n - p,
        {
            if self.rows[p].id == taxid {
                proof {
                    lemma_rows_idx_of(rs, p as int);
                }
                return Some(p);
            }
            p += 1;
        }
        proof {
            if rows_has(rs, taxid as int) {
                let q = choose|q: int| 0 <= q < rs.len() && (#[trigger] rs[q]).id as int == taxid;
                assert(rs[q].id != taxid);
            }
        }
        None
    }

    /// The id of the unique row named `name`, if exactly one row is.
    pub(crate) fn find_unique_name(&self, name: &str) -> (r: Option<i32>)
        requires
            self.inv(),
        ensures
            match r {
                Some(v) => self.spec_names().contains_key(name@) && self.spec_names()[name@]
                    == v as int,
                None => !self.spec_names().contains_key(name@),
            },
    {
        let ghost rs = self.rows@;
        let n = self.rows.len();
        let mut found: Option<usize> = None;
        let mut p: usize = 0;
        while p < n
            invariant
                p <= n,
                n == rs.len(),
                rs == self.rows@,
                self.inv(),
                match found {
                    Some(f) => f < p && rs[f as int].name@ == name@ && (forall|q: int|
                        0 <= q < p && (#[trigger] rs[q]).name@ == name@ ==> q == f as int),
                    None => forall|q: int| 0 <= q < p ==> (#[trigger] rs[q]).name@ != name@,
                },
            decreases n - p,
        {
            if str_eq(self.rows[p].name.as_str(), name) {
                match found {
                    Some(f) => {
                        // a second row with this name: the key does not resolve
                        proof {
                            assert(rs[f as int].name@ == name@ && rs[p as int].name@ == name@);
                            if unique_name(rs, name@) {
                                let w = choose|w: int|
                                    0 <= w < rs.len() && (#[trigger] rs[w]).name@ == name@ && (
                                    forall|q: int|
                                        0 <= q < rs.len() && (#[trigger] rs[q]).name@ == name@
                                            ==> q == w);
                                assert(f as int == w && p as int == w);
                            }
                        }
                        return None;
                    },
                    None => {
                        found = Some(p);
                    },
                }
            }
            p += 1;
        }
        match found {
            Some(f) => {
                let v = self.rows[f].id;
                proof {
                    assert(unique_name(rs, name@));
                    let w = choose|w: int| 0 <= w < rs.len() && (#[trigger] rs[w]).name@ == name@;
                    assert(w == f as int);
                }
                Some(v)
            },
            None => {
                proof {
                    if unique_name(rs, name@) {
                        let w = choose|w: int|
                            0 <= w < rs.len() && (#[trigger] rs[w]).name@ == name@ && (forall|
                                q: int,
                            | 0 <= q < rs.len() && (#[trigger] rs[q]).name@ == name@ ==> q == w);
                        assert(rs[w].name@ != name@);
                    }
                }
                None
            },
        }
    }

    /// The nearest-first ancestor chain of the row at `p`, each ancestor
    /// paired with its rank class.
    pub(crate) fn ranked_chain(&self, p: usize) -> (r: Vec<(i32, RankClass)>)
        requires
            self.inv(),
            p < self.rows@.len(),
        ensures
            chain_view(r@) == chain_with_ranks(self.spec_model(), self.rows@[p as int].id as int),
            r@.len() <= 0x7fff_ffff,
    {
        let ghost rs = self.rows@;
        let ghost m = self.spec_model();
        let ghost id0: int = rs[p as int].id as int;
        proof {
            lemma_rows_idx_of(rs, p as int);
            assert(m[id0].ancestors == anc_view(rs[p as int]));
            self.lemma_inv_model_wf();
        }
        let ghost chain: Seq<int> = anc_view(rs[p as int]);
        let n = self.rows[p].ancestors.len();
        let mut out: Vec<(i32, RankClass)> = Vec::new();
        let mut k: usize = 0;
        while k < n
            invariant
                k <= n,
                n == self.rows@[p as int].ancestors@.len(),
                p < self.rows@.len(),
                rs == self.rows@,
                m == self.spec_model(),
                self.inv(),
                chain == anc_view(rs[p as int]),
                m.contains_key(id0),
                m[id0].ancestors == chain,
                model_wf(m),
                out@.len() == k,
                forall|j: int|
                    0 <= j < k ==> (#[trigger] out@[j]).0 as int == chain[j] && out@[j].1
                        == rank_class_of(m, chain[j]),
            decreases n - k,
        {
            let a = self.rows[p].ancestors[k];
            proof {
                assert(chain[k as int] == a as int);
                crate::model::lemma_chain_suffix(m, id0, k as int);
                assert(m.contains_key(a as int));
                assert(rows_has(rs, a as int));
                lemma_rows_idx(rs, a as int);
            }
            let ap = match self.find_row(a) {
                Some(ap) => ap,
                None => {
                    proof {
                        assert(false);
                    }
                    0
                },
            };
            let rc = match &self.rows[ap].rank {
                Some(s) => {
                    if rank_is_canonical(s.as_str()) {
                        RankClass::Canonical
                    } else {
                        RankClass::Other
                    }
                },
                None => RankClass::Missing,
            };
            proof {
                assert(m[a as int] == row_model(rs[rows_idx(rs, a as int)]));
                assert(rows_idx(rs, a as int) == ap as int);
                assert(rc == rank_class_of(m, a as int));
            }
            out.push((a, rc));
            k += 1;
        }
        proof {
            assert(chain_view(out@) =~= chain_with_ranks(m, id0));
        }
        out
    }
}

/// The validity of a loaded table: every ancestry column parses, every
/// chain counts in an `i32`, ids are unique, and each chain is the
/// parent's id followed by the parent's own chain.
pub open spec fn rows_valid(ts: Seq<Taxon>) -> bool {
    &&& (forall|k: int|
        0 <= k < ts.len() ==> spec_row_chain(spec_taxon_ancestry(#[trigger] ts[k])) is Some)
    &&& (forall|k: int|
        0 <= k < ts.len() ==> (match spec_row_chain(spec_taxon_ancestry(#[trigger] ts[k])) {
            Some(c) => c.len() <= 0x7fff_ffff,
            None => true,
        }))
    &&& (forall|p: int, q: int|
        0 <= p < ts.len() && 0 <= q < ts.len() && p != q ==> (#[trigger] ts[p]).id != (
        #[trigger] ts[q]).id)
    &&& (forall|p: int|
        0 <= p < ts.len() ==> (match spec_row_chain(spec_taxon_ancestry(#[trigger] ts[p])) {
            Some(c) => c.len() > 0 ==> (exists|q: int|
                0 <= q < ts.len() && (#[trigger] ts[q]).id as int == c[0] && spec_row_chain(
                    spec_taxon_ancestry(ts[q]),
                ) == Some(c.drop_first())),
            None => true,
        }))
}

impl NcbiSqliteTaxonomy {
    /// Builds the store from the rows of the persisted table, validating
    /// the materialized-path invariants once; any defect is a data
    /// integrity error, not a lookup failure.
    ///
    /// Succeeds exactly when the rows are valid, and then answers for
    /// precisely the given rows.
    #[verifier::rlimit(100)]
    #[verifier::spinoff_prover]
    pub fn new(rows: &Vec<Taxon>) -> (r: Result<NcbiSqliteTaxonomy, NcbiTaxonomyError>)
        ensures
            ({
                let ts = rows@;
                match r {
                    Ok(s) => {
                        &&& s.inv()
                        &&& rows_valid(ts)
                        &&& (forall|k: int|
                            0 <= k < ts.len() ==> s.spec_model().contains_key(
                                (#[trigger] ts[k]).id as int,
                            ) && s.spec_model()[ts[k].id as int] == (TaxonModel {
                                ancestors: spec_row_chain(spec_taxon_ancestry(ts[k]))->Some_0,
                                name: Some(ts[k].name@),
                                rank: match ts[k].rank {
                                    Some(rk) => Some(rk@),
                                    None => None,
                                },
                            }))
                        &&& (forall|id: int| #[trigger]
                            s.spec_model().contains_key(id) ==> exists|k: int|
                                0 <= k < ts.len() && (#[trigger] ts[k]).id as int == id)
                        &&& (forall|n: Seq<char>| #[trigger]
                            s.spec_names().contains_key(n) <==> (exists|p: int|
                                0 <= p < ts.len() && (#[trigger] ts[p]).name@ == n && (forall|
                                    q: int,
                                | 0 <= q < ts.len() && (#[trigger] ts[q]).name@ == n ==> q == p)))
                        &&& (forall|n: Seq<char>| #[trigger]
                            s.spec_names().contains_key(n) ==> exists|p: int|
                                0 <= p < ts.len() && (#[trigger] ts[p]).name@ == n && ts[p].id
                                    as int == s.spec_names()[n])
                    },
                    Err(e) => e matches NcbiTaxonomyError::IntegrityError(_) && !rows_valid(ts),
                }
            }),
    {
        let ghost ts = rows@;
        let n = rows.len();
        let mut rs: Vec<RowData> = Vec::new();
        let mut k: usize = 0;
        while k < n
            invariant
                k <= n,
                n == ts.len(),
                ts == rows@,
                rs@.len() == k,
                forall|j: int|
                    0 <= j < k ==> (#[trigger] rs@[j]).id == ts[j].id && rs@[j].name@ == ts[
                        j
                    ].name@ && rs@[j].rank == ts[j].rank && Some(anc_view(rs@[j]))
                        == spec_row_chain(spec_taxon_ancestry(ts[j])) && rs@[j].ancestors@.len()
                        <= 0x7fff_ffff,
            decreases n - k,
        {
            let chain: Vec<i32> = match &rows[k].ancestry {
                None => {
                    let v: Vec<i32> = Vec::new();
                    proof {
                        assert(v@.map_values(|x: i32| x as int) =~= Seq::<int>::empty());
                    }
                    v
                },
                Some(astr) => {
                    match parse_ancestry(astr.as_str()) {
                        Some(v) => {
                            let m0 = v.len();
                            let mut rev: Vec<i32> = Vec::new();
                            let mut i: usize = m0;
                            while i > 0
                                invariant
                                    i <= m0,
                                    m0 == v@.len(),
                                    rev@.len() == m0 - i,
                                    forall|j: int|
                                        0 <= j < rev@.len() ==> (#[trigger] rev@[j]) == v@[m0 - 1
                                            - j],
                                decreases i,
                            {
                                i -= 1;
                                rev.push(v[i]);
                            }
                            proof {
                                let ids = v@.map_values(|x: i32| x as int);
                                assert(rev@.map_values(|x: i32| x as int) =~= ids.reverse());
                            }
                            rev
                        },
                        None => {
                            return Err(
                                NcbiTaxonomyError::IntegrityError(rows[k].name.clone()),
                            );
                        },
                    }
                },
            };
            if chain.len() > 0x7fff_ffff {
                return Err(NcbiTaxonomyError::IntegrityError(rows[k].name.clone()));
            }
            let rank = match &rows[k].rank {
                Some(s) => Some(s.clone()),
                None => None,
            };
            rs.push(
                RowData { id: rows[k].id, ancestors: chain, name: rows[k].name.clone(), rank },
            );
            k += 1;
        }
        // ids must be unique
        let mut p: usize = 0;
        while p < n
            invariant
                p <= n,
                n == ts.len(),
                ts == rows@,
                rs@.len() == n,
                forall|j: int|
                    0 <= j < n ==> (#[trigger] rs@[j]).id == ts[j].id && rs@[j].name@ == ts[
                        j
                    ].name@ && rs@[j].rank == ts[j].rank && Some(anc_view(rs@[j]))
                        == spec_row_chain(spec_taxon_ancestry(ts[j])) && rs@[j].ancestors@.len()
                        <= 0x7fff_ffff,
                forall|a: int, b: int| 0 <= a < p && a < b < n ==> rs@[a].id != rs@[b].id,
            decreases n - p,
        {
            let mut q: usize = p + 1;
            while q < n
                invariant
                    p < q <= n || (p + 1 == q && q > n && false),
                    p < n,
                    n == ts.len(),
                    ts == rows@,
                    rs@.len() == n,
                    forall|j: int| 0 <= j < n ==> (#[trigger] rs@[j]).id == ts[j].id,
                    forall|b: int| p < b < q ==> rs@[p as int].id != rs@[b].id,
                decreases n - q,
            {
                if rs[p].id == rs[q].id {
                    proof {
                        assert(ts[p as int].id == ts[q as int].id);
                    }
                    return Err(NcbiTaxonomyError::IntegrityError(rows[p].name.clone()));
                }
                q += 1;
            }
            p += 1;
        }
        // each chain must continue its parent's chain
        let mut p2: usize = 0;
        while p2 < n
            invariant
                p2 <= n,
                n == ts.len(),
                ts == rows@,
                rs@.len() == n,
                forall|j: int|
                    0 <= j < n ==> (#[trigger] rs@[j]).id == ts[j].id && rs@[j].name@ == ts[
                        j
                    ].name@ && rs@[j].rank == ts[j].rank && Some(anc_view(rs@[j]))
                        == spec_row_chain(spec_taxon_ancestry(ts[j])) && rs@[j].ancestors@.len()
                        <= 0x7fff_ffff,
                forall|a: int, b: int|
                    0 <= a < n && 0 <= b < n && a != b ==> (#[trigger] rs@[a]).id != (
                    #[trigger] rs@[b]).id,
                forall|a: int|
                    0 <= a < p2 ==> (anc_view(#[trigger] rs@[a]).len() > 0 ==> rows_has(
                        rs@,
                        anc_view(rs@[a])[0],
                    ) && anc_view(rs@[rows_idx(rs@, anc_view(rs@[a])[0])]) == anc_view(
                        rs@[a],
                    ).drop_first()),
            decreases n - p2,
        {
            if self_check_chain(&rs, p2) {
            } else {
                proof {
                    let c = anc_view(rs@[p2 as int]);
                    assert(!rows_valid(ts)) by {
                        if rows_valid(ts) {
                            assert(spec_row_chain(spec_taxon_ancestry(ts[p2 as int])) == Some(c));
                            if c.len() > 0 {
                                let q = choose|q: int|
                                    0 <= q < ts.len() && (#[trigger] ts[q]).id as int == c[0]
                                        && spec_row_chain(spec_taxon_ancestry(ts[q])) == Some(
                                        c.drop_first(),
                                    );
                                assert(rs@[q].id as int == c[0]);
                                assert(rows_has(rs@, c[0]));
                                lemma_rows_idx_of(rs@, q);
                                assert(anc_view(rs@[rows_idx(rs@, c[0])]) == c.drop_first());
                            }
                        }
                    }
                }
                return Err(NcbiTaxonomyError::IntegrityError(rows[p2].name.clone()));
            }
            p2 += 1;
        }
        let s = NcbiSqliteTaxonomy { rows: rs };
        proof {
            let rsv = s.rows@;
            assert(rows_wf(rsv));
            lemma_rows_valid(ts, rsv);
            lemma_rows_model_facts(ts, rsv);
            lemma_rows_name_facts(ts, rsv);
        }
        Ok(s)
    }
}

/// The correspondence between the input rows and the validated rows.
pub(crate) open spec fn rows_correspond(ts: Seq<Taxon>, rsv: Seq<RowData>) -> bool {
    &&& rsv.len() == ts.len()
    &&& (forall|j: int|
        0 <= j < ts.len() ==> (#[trigger] rsv[j]).id == ts[j].id && rsv[j].name@ == ts[j].name@
            && rsv[j].rank == ts[j].rank && Some(anc_view(rsv[j])) == spec_row_chain(
            spec_taxon_ancestry(ts[j]),
        ) && rsv[j].ancestors@.len() <= 0x7fff_ffff)
}

/// Validated rows certify the validity of the table they came from.
#[verifier::spinoff_prover]
proof fn lemma_rows_valid(ts: Seq<Taxon>, rsv: Seq<RowData>)
    requires
        rows_correspond(ts, rsv),
        rows_wf(rsv),
    ensures
        rows_valid(ts),
{
    assert forall|k: int| 0 <= k < ts.len() implies spec_row_chain(
        spec_taxon_ancestry(#[trigger] ts[k]),
    ) is Some by {
        assert(Some(anc_view(rsv[k])) == spec_row_chain(spec_taxon_ancestry(ts[k])));
    }
    assert forall|k: int| 0 <= k < ts.len() implies (match spec_row_chain(
        spec_taxon_ancestry(#[trigger] ts[k]),
    ) {
        Some(c) => c.len() <= 0x7fff_ffff,
        None => true,
    }) by {
        assert(Some(anc_view(rsv[k])) == spec_row_chain(spec_taxon_ancestry(ts[k])));
        assert(anc_view(rsv[k]).len() == rsv[k].ancestors@.len());
    }
    assert forall|p: int, q: int|
        0 <= p < ts.len() && 0 <= q < ts.len() && p != q implies (#[trigger] ts[p]).id != (
    #[trigger] ts[q]).id by {
        assert(rsv[p].id != rsv[q].id);
    }
    assert forall|pp: int| 0 <= pp < ts.len() implies (match spec_row_chain(
        spec_taxon_ancestry(#[trigger] ts[pp]),
    ) {
        Some(c) => c.len() > 0 ==> (exists|q: int|
            0 <= q < ts.len() && (#[trigger] ts[q]).id as int == c[0] && spec_row_chain(
                spec_taxon_ancestry(ts[q]),
            ) == Some(c.drop_first())),
        None => true,
    }) by {
        let c = anc_view(rsv[pp]);
        assert(Some(c) == spec_row_chain(spec_taxon_ancestry(ts[pp])));
        if c.len() > 0 {
            let q = rows_idx(rsv, c[0]);
            lemma_rows_idx(rsv, c[0]);
            assert(ts[q].id as int == c[0]);
            assert(spec_row_chain(spec_taxon_ancestry(ts[q])) == Some(c.drop_first()));
        }
    }
}

/// The validated store answers for exactly the given rows.
#[verifier::spinoff_prover]
proof fn lemma_rows_model_facts(ts: Seq<Taxon>, rsv: Seq<RowData>)
    requires
        rows_correspond(ts, rsv),
        rows_wf(rsv),
    ensures
        forall|k: int|
            0 <= k < ts.len() ==> rows_model(rsv).contains_key((#[trigger] ts[k]).id as int)
                && rows_model(rsv)[ts[k].id as int] == (TaxonModel {
                ancestors: spec_row_chain(spec_taxon_ancestry(ts[k]))->Some_0,
                name: Some(ts[k].name@),
                rank: match ts[k].rank {
                    Some(rk) => Some(rk@),
                    None => None,
                },
            }),
        forall|id: int| #[trigger]
            rows_model(rsv).contains_key(id) ==> exists|k: int|
                0 <= k < ts.len() && (#[trigger] ts[k]).id as int == id,
{
    assert forall|kk: int| 0 <= kk < ts.len() implies rows_model(rsv).contains_key(
        (#[trigger] ts[kk]).id as int,
    ) && rows_model(rsv)[ts[kk].id as int] == (TaxonModel {
        ancestors: spec_row_chain(spec_taxon_ancestry(ts[kk]))->Some_0,
        name: Some(ts[kk].name@),
        rank: match ts[kk].rank {
            Some(rk) => Some(rk@),
            None => None,
        },
    }) by {
        lemma_rows_idx_of(rsv, kk);
        assert(Some(anc_view(rsv[kk])) == spec_row_chain(spec_taxon_ancestry(ts[kk])));
    }
    assert forall|id: int| #[trigger] rows_model(rsv).contains_key(id) implies exists|k2: int|
        0 <= k2 < ts.len() && (#[trigger] ts[k2]).id as int == id by {
        let q = rows_idx(rsv, id);
        lemma_rows_idx(rsv, id);
        assert(ts[q].id as int == id);
    }
}

/// The name index resolves exactly the uniquely named rows.
#[verifier::spinoff_prover]
proof fn lemma_rows_name_facts(ts: Seq<Taxon>, rsv: Seq<RowData>)
    requires
        rows_correspond(ts, rsv),
        rows_wf(rsv),
    ensures
        forall|n: Seq<char>| #[trigger]
            rows_names(rsv).contains_key(n) <==> (exists|p: int|
                0 <= p < ts.len() && (#[trigger] ts[p]).name@ == n && (forall|q: int|
                    0 <= q < ts.len() && (#[trigger] ts[q]).name@ == n ==> q == p)),
        forall|n: Seq<char>| #[trigger]
            rows_names(rsv).contains_key(n) ==> exists|p: int|
                0 <= p < ts.len() && (#[trigger] ts[p]).name@ == n && ts[p].id as int == rows_names(
                    rsv,
                )[n],
{
    assert forall|nm: Seq<char>| #[trigger]
        rows_names(rsv).contains_key(nm) <==> (exists|pp: int|
        0 <= pp < ts.len() && (#[trigger] ts[pp]).name@ == nm && (forall|q: int|
            0 <= q < ts.len() && (#[trigger] ts[q]).name@ == nm ==> q == pp)) by {
        if unique_name(rsv, nm) {
            let w = choose|w: int|
                0 <= w < rsv.len() && (#[trigger] rsv[w]).name@ == nm && (forall|q: int|
                    0 <= q < rsv.len() && (#[trigger] rsv[q]).name@ == nm ==> q == w);
            assert(ts[w].name@ == nm);
            assert forall|q: int|
                0 <= q < ts.len() && (#[trigger] ts[q]).name@ == nm implies q == w by {
                assert(rsv[q].name@ == nm);
            }
        }
        if exists|pp: int|
            0 <= pp < ts.len() && (#[trigger] ts[pp]).name@ == nm && (forall|q: int|
                0 <= q < ts.len() && (#[trigger] ts[q]).name@ == nm ==> q == pp) {
            let w = choose|w: int|
                0 <= w < ts.len() && (#[trigger] ts[w]).name@ == nm && (forall|q: int|
                    0 <= q < ts.len() && (#[trigger] ts[q]).name@ == nm ==> q == w);
            assert(rsv[w].name@ == nm);
            assert forall|q: int|
                0 <= q < rsv.len() && (#[trigger] rsv[q]).name@ == nm implies q == w by {
                assert(ts[q].name@ == nm);
            }
            assert(unique_name(rsv, nm));
        }
    }
    assert forall|nm: Seq<char>| #[trigger] rows_names(rsv).contains_key(nm) implies exists|
        pp: int,
    | 0 <= pp < ts.len() && (#[trigger] ts[pp]).name@ == nm && ts[pp].id as int == rows_names(
        rsv,
    )[nm] by {
        let w = choose|w: int| 0 <= w < rsv.len() && (#[trigger] rsv[w]).name@ == nm;
        assert(ts[w].name@ == nm && ts[w].id as int == rows_names(rsv)[nm]);
    }
}

/// Whether row `p`'s chain continues its parent's chain: the first
/// ancestor has a row whose chain is the rest of `p`'s chain.
fn self_check_chain(rs: &Vec<RowData>, p: usize) -> (r: bool)
    requires
        p < rs@.len(),
        forall|j: int| 0 <= j < rs@.len() ==> (#[trigger] rs@[j]).ancestors@.len() <= 0x7fff_ffff,
        forall|a: int, b: int|
            0 <= a < rs@.len() && 0 <= b < rs@.len() && a != b ==> (#[trigger] rs@[a]).id != (
            #[trigger] rs@[b]).id,
    ensures
        r == (anc_view(rs@[p as int]).len() > 0 ==> rows_has(rs@, anc_view(rs@[p as int])[0])
            && anc_view(rs@[rows_idx(rs@, anc_view(rs@[p as int])[0])]) == anc_view(
            rs@[p as int],
        ).drop_first()),
{
    let ghost c = anc_view(rs@[p as int]);
    if rs[p].ancestors.len() == 0 {
        return true;
    }
    let a0 = rs[p].ancestors[0];
    proof {
        assert(c[0] == a0 as int);
    }
    let n = rs.len();
    let mut q: usize = 0;
    while q < n
        invariant
            q <= n,
            n == rs@.len(),
            p < n,
            c == anc_view(rs@[p as int]),
            c.len() > 0,
            c[0] == a0 as int,
            rs@[p as int].ancestors@[0] == a0,
            forall|j: int| 0 <= j < rs@.len() ==> (#[trigger] rs@[j]).ancestors@.len()
                <= 0x7fff_ffff,
            forall|a: int, b: int|
                0 <= a < rs@.len() && 0 <= b < rs@.len() && a != b ==> (#[trigger] rs@[a]).id != (
                #[trigger] rs@[b]).id,
            forall|j: int| 0 <= j < q ==> (#[trigger] rs@[j]).id != a0,
        decreases n - q,
    {
        if rs[q].id == a0 {
            proof {
                lemma_rows_idx_of(rs@, q as int);
            }
            // compare the parent's chain with the rest of ours
            let pa = &rs[q].ancestors;
            let na = pa.len();
            if na + 1 != rs[p].ancestors.len() {
                proof {
                    assert(anc_view(rs@[q as int]).len() != c.drop_first().len());
                }
                return false;
            }
            let mut j: usize = 0;
            while j < na
                invariant
                    j <= na,
                    q < n,
                    p < n,
                    n == rs@.len(),
                    na == rs@[q as int].ancestors@.len(),
                    na + 1 == rs@[p as int].ancestors@.len(),
                    c == anc_view(rs@[p as int]),
                    rows_idx(rs@, c[0]) == q as int,
                    rows_has(rs@, c[0]),
                    forall|j2: int|
                        0 <= j2 < j ==> (#[trigger] rs@[q as int].ancestors@[j2]) == rs@[
                            p as int
                        ].ancestors@[j2 + 1],
                decreases na - j,
            {
                if rs[q].ancestors[j] != rs[p].ancestors[j + 1] {
                    proof {
                        assert(anc_view(rs@[q as int])[j as int] != c.drop_first()[j as int]);
                    }
                    return false;
                }
                j += 1;
            }
            proof {
                assert(anc_view(rs@[q as int]) =~= c.drop_first());
            }
            return true;
        }
        q += 1;
    }
    proof {
        if rows_has(rs@, a0 as int) {
            let w = choose|w: int| 0 <= w < rs@.len() && (#[trigger] rs@[w]).id as int == a0 as int;
            assert(rs@[w].id != a0);
        }
    }
    false
}

fn chain_contains(v: &Vec<i32>, a: i32) -> (r: bool)
    ensures
        r == v@.map_values(|x: i32| x as int).contains(a as int),
{
    let ghost iv = v@.map_values(|x: i32| x as int);
    let n = v.len();
    let mut k: usize = 0;
    while k < n
        invariant
            k <= n,
            n == v@.len(),
            iv == v@.map_values(|x: i32| x as int),
            forall|j: int| 0 <= j < k ==> (#[trigger] v@[j]) != a,
        decreases n - k,
    {
        if v[k] == a {
            proof {
                assert(iv[k as int] == a as int);
            }
            return true;
        }
        k += 1;
    }
    proof {
        if iv.contains(a as int) {
            let j = choose|j: int| 0 <= j < iv.len() && iv[j] == a as int;
            assert(v@[j] == a);
        }
    }
    false
}

impl crate::interface::NcbiTaxonomy for NcbiSqliteTaxonomy {
    open spec fn model(&self) -> Map<int, TaxonModel> {
        self.spec_model()
    }

    open spec fn names(&self) -> Map<Seq<char>, int> {
        self.spec_names()
    }

    open spec fn wf(&self) -> bool {
        self.inv()
    }

    proof fn lemma_model_wf(&self) {
        self.lemma_inv_model_wf();
    }

    fn contains_id(&self, taxid: i32) -> (r: bool) {
        match self.find_row(taxid) {
            Some(_) => true,
            None => false,
        }
    }

    fn contains_name(&self, name: &str) -> (r: bool) {
        match self.find_unique_name(name) {
            Some(_) => true,
            None => false,
        }
    }

    fn is_descendant(&self, name: &str, ancestor_name: &str) -> (r: bool) {
        let id = match self.find_unique_name(name) {
            Some(id) => id,
            None => {
                return false;
            },
        };
        let ancestor_id = match self.find_unique_name(ancestor_name) {
            Some(id) => id,
            None => {
                return false;
            },
        };
        self.is_descendant_taxid(id, ancestor_id)
    }

    fn is_descendant_taxid(&self, taxid: i32, ancestor_taxid: i32) -> (r: bool) {
        let p = match self.find_row(taxid) {
            Some(p) => p,
            None => {
                return false;
            },
        };
        let ghost m = self.spec_model();
        proof {
            assert(m[taxid as int].ancestors == anc_view(self.rows@[p as int]));
        }
        let r = chain_contains(&self.rows[p].ancestors, ancestor_taxid);
        proof {
            if r {
                self.lemma_inv_model_wf();
                let chain = m[taxid as int].ancestors;
                let k = choose|k: int| 0 <= k < chain.len() && chain[k] == ancestor_taxid as int;
                crate::model::lemma_chain_suffix(m, taxid as int, k);
                assert(m.contains_key(ancestor_taxid as int));
            }
        }
        r
    }

    fn get_name_by_id(&self, taxid: i32) -> (r: Option<String>) {
        match self.find_row(taxid) {
            Some(p) => Some(self.rows[p].name.clone()),
            None => None,
        }
    }

    fn get_id_by_name(&self, name: &str) -> (r: Option<i32>) {
        self.find_unique_name(name)
    }

    fn get_distance_to_common_ancestor_taxid(
        &self,
        taxid1: i32,
        taxid2: i32,
        only_canonical: bool,
    ) -> (r: Option<i32>) {
        let ghost m = self.spec_model();
        if taxid1 == taxid2 {
            return Some(0i32);
        }
        let p1 = match self.find_row(taxid1) {
            Some(p) => p,
            None => {
                return None;
            },
        };
        let p2 = match self.find_row(taxid2) {
            Some(p) => p,
            None => {
                return None;
            },
        };
        let rc1 = match &self.rows[p1].rank {
            Some(s) => {
                if rank_is_canonical(s.as_str()) {
                    RankClass::Canonical
                } else {
                    RankClass::Other
                }
            },
            None => RankClass::Missing,
        };
        proof {
            assert(m[taxid1 as int] == row_model(self.rows@[p1 as int]));
            assert(rc1 == rank_class_of(m, taxid1 as int));
        }
        let chain1 = self.ranked_chain(p1);
        let chain2 = self.ranked_chain(p2);
        distance_walk(taxid1, rc1, &chain1, taxid2, &chain2, only_canonical)
    }

    fn get_distance_to_common_ancestor(
        &self,
        name1: &str,
        name2: &str,
        only_canonical: bool,
    ) -> (r: Option<i32>) {
        let taxid1 = match self.find_unique_name(name1) {
            Some(id) => id,
            None => {
                return None;
            },
        };
        let taxid2 = match self.find_unique_name(name2) {
            Some(id) => id,
            None => {
                return None;
            },
        };
        self.get_distance_to_common_ancestor_taxid(taxid1, taxid2, only_canonical)
    }
}

/// One persisted row speaks for one taxon of the model `m`, as the
/// exporter writes it (same clauses as `spec_export_rec_ok`, on the
/// queryable row type).
pub open spec fn export_row_ok(m: Map<int, TaxonModel>, t: Taxon) -> bool {
    let id = t.id as int;
    &&& m.contains_key(id)
    &&& (match t.ancestry {
        None => m[id].ancestors.len() == 0,
        Some(s) => m[id].ancestors.len() > 0 && s@ == crate::codec::spec_join_ids(
            m[id].ancestors.reverse(),
        ),
    })
    &&& Some(t.name@) == m[id].name
    &&& (match t.rank {
        Some(s) => Some(s@),
        None => None::<Seq<char>>,
    }) == m[id].rank
}

/// Exported rows are a valid table, and each row's ancestry parses back
/// to exactly the taxon's ancestor chain: the persisted store re-derives
/// the in-memory relationships.
pub proof fn lemma_export_round_trip(m: Map<int, TaxonModel>, ts: Seq<Taxon>)
    requires
        model_wf(m),
        forall|id: int| #[trigger] m.contains_key(id) ==> 0 <= id <= 0x7fff_ffff,
        forall|k: int| 0 <= k < ts.len() ==> export_row_ok(m, #[trigger] ts[k]),
        forall|id: int| #[trigger]
            m.contains_key(id) ==> exists|k: int|
                0 <= k < ts.len() && (#[trigger] ts[k]).id as int == id,
        forall|k1: int, k2: int|
            0 <= k1 < ts.len() && 0 <= k2 < ts.len() && k1 != k2 ==> ts[k1].id != ts[k2].id,
    ensures
        rows_valid(ts),
        forall|k: int|
            0 <= k < ts.len() ==> spec_row_chain(spec_taxon_ancestry(#[trigger] ts[k])) == Some(
                m[ts[k].id as int].ancestors,
            ),
{
    assert forall|k: int|
        0 <= k < ts.len() implies spec_row_chain(spec_taxon_ancestry(#[trigger] ts[k])) == Some(
        m[ts[k].id as int].ancestors,
    ) by {
        lemma_row_chain_roundtrip(m, ts[k]);
    }
    assert forall|k: int| 0 <= k < ts.len() implies (match spec_row_chain(
        spec_taxon_ancestry(#[trigger] ts[k]),
    ) {
        Some(c) => c.len() <= 0x7fff_ffff,
        None => true,
    }) by {
        let id = ts[k].id as int;
        let anc = m[id].ancestors;
        crate::model::lemma_chain_no_duplicates(m, id);
        crate::model::lemma_no_self_ancestor(m, id);
        let anc2 = anc.push(id);
        assert(anc2.no_duplicates()) by {
            assert forall|i: int, j: int|
                0 <= i < j < anc2.len() implies anc2[i] != anc2[j] by {
                if j < anc.len() {
                    assert(anc2[i] == anc[i] && anc2[j] == anc[j]);
                } else {
                    assert(anc2[j] == id && anc2[i] == anc[i]);
                    if anc[i] == id {
                        assert(anc.contains(id));
                    }
                }
            }
        }
        assert forall|j: int| 0 <= j < anc2.len() implies m.contains_key(#[trigger] anc2[j]) by {
            if j < anc.len() {
                crate::model::lemma_chain_suffix(m, id, j);
            }
        }
        lemma_distinct_ids_bounded(m, anc2);
        assert(anc.len() + 1 <= 0x8000_0000);
    }
    assert forall|pp: int| 0 <= pp < ts.len() implies (match spec_row_chain(
        spec_taxon_ancestry(#[trigger] ts[pp]),
    ) {
        Some(c) => c.len() > 0 ==> (exists|q: int|
            0 <= q < ts.len() && (#[trigger] ts[q]).id as int == c[0] && spec_row_chain(
                spec_taxon_ancestry(ts[q]),
            ) == Some(c.drop_first())),
        None => true,
    }) by {
        let id = ts[pp].id as int;
        let c = m[id].ancestors;
        if c.len() > 0 {
            crate::model::lemma_node_ok_unfold(m, id);
            let q = choose|q: int|
                0 <= q < ts.len() && (#[trigger] ts[q]).id as int == c[0];
            assert(spec_row_chain(spec_taxon_ancestry(ts[q])) == Some(m[c[0]].ancestors));
            assert(m[c[0]].ancestors == c.drop_first());
        }
    }
}

/// An ancestry column written by the exporter parses back to the
/// taxon's chain.
proof fn lemma_row_chain_roundtrip(m: Map<int, TaxonModel>, t: Taxon)
    requires
        model_wf(m),
        forall|id: int| #[trigger] m.contains_key(id) ==> 0 <= id <= 0x7fff_ffff,
        export_row_ok(m, t),
    ensures
        spec_row_chain(spec_taxon_ancestry(t)) == Some(m[t.id as int].ancestors),
{
    let id = t.id as int;
    let anc = m[id].ancestors;
    match t.ancestry {
        None => {
            assert(anc =~= Seq::<int>::empty());
        },
        Some(s) => {
            let rev = anc.reverse();
            assert(rev.len() >= 1);
            assert forall|j: int| 0 <= j < rev.len() implies 0 <= #[trigger] rev[j]
                <= crate::codec::MAX_ID as int by {
                assert(rev[j] == anc[anc.len() - 1 - j]);
                crate::model::lemma_chain_suffix(m, id, anc.len() - 1 - j);
                assert(m.contains_key(anc[anc.len() - 1 - j]));
            }
            crate::codec::lemma_ancestry_roundtrip(rev);
            assert(crate::codec::spec_parse_ancestry(s@) == Some(rev));
            assert(rev.reverse() =~= anc);
        },
    }
}

/// A duplicate-free sequence of model ids counts at most the 32-bit
/// id range.
proof fn lemma_distinct_ids_bounded(m: Map<int, TaxonModel>, anc: Seq<int>)
    requires
        anc.no_duplicates(),
        forall|j: int| 0 <= j < anc.len() ==> m.contains_key(#[trigger] anc[j]),
        forall|id: int| #[trigger] m.contains_key(id) ==> 0 <= id <= 0x7fff_ffff,
    ensures
        anc.len() <= 0x8000_0000,
{
    let bound: Set<int> = Set::new(|x: int| 0 <= x <= 0x7fff_ffff);
    assert(anc.to_set().subset_of(bound)) by {
        assert forall|x: int| anc.to_set().contains(x) implies bound.contains(x) by {
            assert(anc.contains(x));
            let j = choose|j: int| 0 <= j < anc.len() && anc[j] == x;
        }
    }
    anc.unique_seq_to_set();
    vstd::set_lib::lemma_int_range(0, 0x8000_0000);
    assert(bound =~= vstd::set_lib::set_int_range(0, 0x8000_0000));
    vstd::set_lib::lemma_len_subset(anc.to_set(), bound);
}

/// Agreement of the two stores after an export: a model answered by the
/// in-memory forest and the model the persisted rows re-derive are one
/// and the same, so every query of the interface agrees between them.
pub proof fn lemma_round_trip_model(m: Map<int, TaxonModel>, ts: Seq<Taxon>, m2: Map<
    int,
    TaxonModel,
>)
    requires
        model_wf(m),
        forall|id: int| #[trigger] m.contains_key(id) ==> 0 <= id <= 0x7fff_ffff,
        forall|k: int| 0 <= k < ts.len() ==> export_row_ok(m, #[trigger] ts[k]),
        forall|id: int| #[trigger]
            m.contains_key(id) ==> exists|k: int|
                0 <= k < ts.len() && (#[trigger] ts[k]).id as int == id,
        forall|k1: int, k2: int|
            0 <= k1 < ts.len() && 0 <= k2 < ts.len() && k1 != k2 ==> ts[k1].id != ts[k2].id,
        // what the store constructor guarantees of its model
        forall|k: int|
            0 <= k < ts.len() ==> m2.contains_key((#[trigger] ts[k]).id as int) && m2[ts[k].id
                as int] == (TaxonModel {
                ancestors: spec_row_chain(spec_taxon_ancestry(ts[k]))->Some_0,
                name: Some(ts[k].name@),
                rank: match ts[k].rank {
                    Some(rk) => Some(rk@),
                    None => None,
                },
            }),
        forall|id: int| #[trigger]
            m2.contains_key(id) ==> exists|k: int|
                0 <= k < ts.len() && (#[trigger] ts[k]).id as int == id,
    ensures
        m2 == m,
{
    lemma_export_round_trip(m, ts);
    assert forall|id: int| m2.contains_key(id) <==> m.contains_key(id) by {
        if m2.contains_key(id) {
            let k = choose|k: int| 0 <= k < ts.len() && (#[trigger] ts[k]).id as int == id;
            assert(export_row_ok(m, ts[k]));
        }
        if m.contains_key(id) {
            let k = choose|k: int| 0 <= k < ts.len() && (#[trigger] ts[k]).id as int == id;
            assert(m2.contains_key(ts[k].id as int));
        }
    }
    assert forall|id: int| #[trigger] m2.contains_key(id) implies m2[id] == m[id] by {
        let k = choose|k: int| 0 <= k < ts.len() && (#[trigger] ts[k]).id as int == id;
        assert(spec_row_chain(spec_taxon_ancestry(ts[k])) == Some(m[id].ancestors));
        assert(m2[id].ancestors == m[id].ancestors);
        assert(m2[id].name == m[id].name);
        assert(m2[id].rank == m[id].rank);
    }
    assert(m2 =~= m);
}

} // verus!

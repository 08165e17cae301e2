use vstd::prelude::*;

use crate::errors::HetNetError;
use crate::graph::HeteroDiGraph;
use crate::meta_path::{spec_resolve, MetaPath};
use crate::type_table::position_of;

verus! {

pub open spec fn string_views(v: Seq<String>) -> Seq<Seq<char>> {
    v.map_values(|s: String| s@)
}

/// The identifiers of the named edge types, in order. An unknown name is
/// skipped where `allow` holds and is otherwise the error.
pub open spec fn spec_convert_edge_types(types: Seq<Seq<char>>, table: Seq<Seq<char>>, allow: bool) -> Result<
    Seq<usize>,
    Seq<char>,
>
    decreases types.len(),
{
    if types.len() == 0 {
        Ok(Seq::empty())
    } else {
        let rest = spec_convert_edge_types(types.drop_first(), table, allow);
        match position_of(table, types[0]) {
            Some(i) => match rest {
                Ok(ids) => Ok(seq![i as usize] + ids),
                Err(n) => Err(n),
            },
            None => if allow {
                rest
            } else {
                Err(types[0])
            },
        }
    }
}

/// The unknown-type error for a type of kind `kind` called `name`.
pub open spec fn is_unknown_type_error(e: HetNetError, kind: Seq<char>, name: Seq<char>) -> bool {
    match e {
        HetNetError::UnknownType { kind: k, name: n } => k@ == kind && n@ == name,
        _ => false,
    }
}

impl HeteroDiGraph {
    /// The identifiers of the edge types named in `types`.
    pub fn convert_edge_types(&self, types: Vec<String>, allow_unknown_types: bool) -> (r: Result<
        Vec<usize>,
        HetNetError,
    >)
        requires
            self.wf(),
        ensures
            match spec_convert_edge_types(string_views(types@), self.edge_type_names(), allow_unknown_types) {
                Ok(ids) => r matches Ok(v) && v@ == ids,
                Err(n) => r matches Err(e) && is_unknown_type_error(e, "edge"@, n),
            },
    {
        let ghost all = string_views(types@);
        let ghost table = self.edge_type_names();
        let mut result: Vec<usize> = Vec::new();
        let mut i: usize = 0;
        assert(all.skip(0) =~= all);
        while i < types.len()
            invariant
                self.wf(),
                all == string_views(types@),
                table == self.edge_type_names(),
                i <= types.len(),
                spec_convert_edge_types(all, table, allow_unknown_types) == match spec_convert_edge_types(
                    all.skip(i as int),
                    table,
                    allow_unknown_types,
                ) {
                    Ok(ids) => Ok::<Seq<usize>, Seq<char>>(result@ + ids),
                    Err(n) => Err(n),
                },
            decreases types.len() - i,
        {
            let ghost tail = all.skip(i as int);
            assert(tail[0] == types@[i as int]@);
            assert(tail.drop_first() =~= all.skip(i + 1));
            match self.edge_metadata.edge_types.index_of(&types[i]) {
                Some(id) => {
                    let ghost before = result@;
                    result.push(id);
                    assert forall|ids: Seq<usize>| before + (seq![id] + ids) == #[trigger] (result@ + ids) by {
                        assert(before + (seq![id] + ids) =~= result@ + ids);
                    }
                },
                None => {
                    if !allow_unknown_types {
                        return Err(HetNetError::UnknownType { kind: "edge".to_owned(), name: types[i].clone() });
                    }
                },
            }
            i = i + 1;
        }
        assert(all.skip(i as int) =~= Seq::<Seq<char>>::empty());
        assert(result@ + Seq::<usize>::empty() =~= result@);
        Ok(result)
    }

    /// The meta-path with its type names replaced by this graph's type
    /// identifiers; `None` for a meta-path naming an unknown type where
    /// `allow_unknown_types` holds.
    pub fn resolve_meta_path(&self, mp: &MetaPath<String>, allow_unknown_types: bool) -> (r: Result<
        Option<MetaPath<usize>>,
        HetNetError,
    >)
        requires
            self.wf(),
        ensures
            match spec_resolve(mp.view_value(), self.node_type_names(), self.edge_type_names()) {
                Ok(v) => r matches Ok(Some(m)) && m.resolved_view() == v,
                Err((kind, name)) => if allow_unknown_types {
                    r matches Ok(None)
                } else {
                    r matches Err(e) && is_unknown_type_error(e, kind, name)
                },
            },
    {
        match mp.resolve_types(&self.node_metadata.node_types, &self.edge_metadata.edge_types) {
            Ok(m) => Ok(Some(m)),
            Err(e) => {
                if allow_unknown_types {
                    Ok(None)
                } else {
                    Err(HetNetError::from(e))
                }
            },
        }
    }
}

} // verus!

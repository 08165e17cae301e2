use vstd::prelude::*;

verus! {

/// Errors raised while parsing or resolving a meta-path definition.
#[derive(Debug, Clone)]
pub enum MetaPathDefinitionError {
    InvalidSyntax { detail: String },
    UnknownType { kind: String, name: String },
}

/// Errors raised while querying a graph.
#[derive(Debug, Clone)]
pub enum GraphQueryingError {
    InvalidReference,
    UnknownType { kind: String, name: String },
    InvalidNodeId { uid: usize },
    InvalidEdgeId { uid: usize },
    NoSuchEdge { kind: String, src: usize, tgt: usize },
}

/// Errors raised while transforming a graph.
#[derive(Debug, Clone)]
pub enum GraphProcessingError {
    NotAllEdgeWeightsEqual,
    NotAllEdgePropertiesEqual,
}

/// Errors of the library's internal machinery.
#[derive(Debug, Clone)]
pub enum InternalError {
    ConcurrencyError { detail: String },
}

/// The union of all errors of the library.
#[derive(Debug, Clone)]
pub enum HetNetError {
    ConcurrencyError { detail: String },
    InvalidSyntax { detail: String },
    UnknownType { kind: String, name: String },
    InvalidReference,
    InvalidNodeId { uid: usize },
    InvalidEdgeId { uid: usize },
    NoSuchEdge { kind: String, src: usize, tgt: usize },
    NotAllEdgeWeightsEqual,
    NotAllEdgePropertiesEqual,
}

impl From<MetaPathDefinitionError> for HetNetError {
    fn from(e: MetaPathDefinitionError) -> (r: HetNetError) {
        match e {
            MetaPathDefinitionError::InvalidSyntax { detail } => HetNetError::InvalidSyntax { detail },
            MetaPathDefinitionError::UnknownType { kind, name } => HetNetError::UnknownType { kind, name },
        }
    }
}

impl vstd::std_specs::convert::FromSpecImpl<MetaPathDefinitionError> for HetNetError {
    open spec fn obeys_from_spec() -> bool {
        true
    }

    open spec fn from_spec(e: MetaPathDefinitionError) -> HetNetError {
        match e {
            MetaPathDefinitionError::InvalidSyntax { detail } => HetNetError::InvalidSyntax { detail },
            MetaPathDefinitionError::UnknownType { kind, name } => HetNetError::UnknownType { kind, name },
        }
    }
}

impl From<GraphQueryingError> for HetNetError {
    fn from(e: GraphQueryingError) -> (r: HetNetError) {
        match e {
            GraphQueryingError::InvalidReference => HetNetError::InvalidReference,
            GraphQueryingError::UnknownType { kind, name } => HetNetError::UnknownType { kind, name },
            GraphQueryingError::InvalidNodeId { uid } => HetNetError::InvalidNodeId { uid },
            GraphQueryingError::InvalidEdgeId { uid } => HetNetError::InvalidEdgeId { uid },
            GraphQueryingError::NoSuchEdge { kind, src, tgt } => HetNetError::NoSuchEdge { kind, src, tgt },
        }
    }
}

impl vstd::std_specs::convert::FromSpecImpl<GraphQueryingError> for HetNetError {
    open spec fn obeys_from_spec() -> bool {
        true
    }

    open spec fn from_spec(e: GraphQueryingError) -> HetNetError {
        match e {
            GraphQueryingError::InvalidReference => HetNetError::InvalidReference,
            GraphQueryingError::UnknownType { kind, name } => HetNetError::UnknownType { kind, name },
            GraphQueryingError::InvalidNodeId { uid } => HetNetError::InvalidNodeId { uid },
            GraphQueryingError::InvalidEdgeId { uid } => HetNetError::InvalidEdgeId { uid },
            GraphQueryingError::NoSuchEdge { kind, src, tgt } => HetNetError::NoSuchEdge { kind, src, tgt },
        }
    }
}

impl From<GraphProcessingError> for HetNetError {
    fn from(e: GraphProcessingError) -> (r: HetNetError) {
        match e {
            GraphProcessingError::NotAllEdgeWeightsEqual => HetNetError::NotAllEdgeWeightsEqual,
            GraphProcessingError::NotAllEdgePropertiesEqual => HetNetError::NotAllEdgePropertiesEqual,
        }
    }
}

impl vstd::std_specs::convert::FromSpecImpl<GraphProcessingError> for HetNetError {
    open spec fn obeys_from_spec() -> bool {
        true
    }

    open spec fn from_spec(e: GraphProcessingError) -> HetNetError {
        match e {
            GraphProcessingError::NotAllEdgeWeightsEqual => HetNetError::NotAllEdgeWeightsEqual,
            GraphProcessingError::NotAllEdgePropertiesEqual => HetNetError::NotAllEdgePropertiesEqual,
        }
    }
}

impl From<InternalError> for HetNetError {
    fn from(e: InternalError) -> (r: HetNetError) {
        match e {
            InternalError::ConcurrencyError { detail } => HetNetError::ConcurrencyError { detail },
        }
    }
}

impl vstd::std_specs::convert::FromSpecImpl<InternalError> for HetNetError {
    open spec fn obeys_from_spec() -> bool {
        true
    }

    open spec fn from_spec(e: InternalError) -> HetNetError {
        match e {
            InternalError::ConcurrencyError { detail } => HetNetError::ConcurrencyError { detail },
        }
    }
}

} // verus!

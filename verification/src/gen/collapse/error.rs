//! Errors of collapsible generation.
use vstd::prelude::*;

use crate::map::GridSize;
use crate::tile::GridPosition;

verus! {

/// Stage of the generation at which a tile was left without options.
#[derive(Debug, Clone, Copy, PartialEq, Eq, Structural)]
pub enum CollapseErrorKind {
    /// While collapsing the tile.
    Collapse,
    /// While updating the neighbours of a collapsed tile.
    NeighbourUpdate,
    /// While removing options before the generation.
    Init,
    /// While propagating removed options.
    Propagation,
}

/// Error of a generation: the tile at `pos` was left without options.
#[derive(Debug, Clone, Copy)]
pub struct CollapseError {
    pos: GridPosition,
    kind: CollapseErrorKind,
}

impl CollapseError {
    pub closed spec fn spec_pos(&self) -> GridPosition {
        self.pos
    }

    pub closed spec fn spec_kind(&self) -> CollapseErrorKind {
        self.kind
    }

    pub fn new(pos: GridPosition, kind: CollapseErrorKind) -> (e: Self)
        ensures
            e.spec_pos() == pos,
            e.spec_kind() == kind,
    {
        Self { pos, kind }
    }

    /// Turns the position of a failed tile into an error of given kind.
    pub fn from_result<T>(result: Result<T, GridPosition>, kind: CollapseErrorKind) -> (r: Result<T, Self>)
        ensures
            result matches Ok(v) ==> r == Ok::<T, Self>(v),
            result matches Err(p) ==> r matches Err(e) && e.spec_pos() == p && e.spec_kind() == kind,
    {
        match result {
            Ok(val) => Ok(val),
            Err(pos) => Err(CollapseError::new(pos, kind)),
        }
    }

    /// Position of the tile which caused the error.
    pub fn failed_pos(&self) -> (p: GridPosition)
        ensures
            p == self.spec_pos(),
    {
        self.pos
    }

    /// The error can be solved by retrying: it did not arise before the generation began.
    pub fn is_probabilistic(&self) -> (r: bool)
        ensures
            r == (self.spec_kind() != CollapseErrorKind::Init),
    {
        !matches!(self.kind, CollapseErrorKind::Init)
    }
}

/// Error of turning collapsed tiles into a collapsible grid, or back.
#[derive(Debug)]
pub struct CollapsedGridError {
    missing_type_ids: Option<Vec<u64>>,
    sizes: Option<(GridSize, GridSize)>,
    position: Option<GridPosition>,
}

impl CollapsedGridError {
    pub closed spec fn spec_missing(&self) -> Option<Seq<u64>> {
        match self.missing_type_ids {
            Some(v) => Some(v@),
            None => None,
        }
    }

    pub closed spec fn spec_sizes(&self) -> Option<(GridSize, GridSize)> {
        self.sizes
    }

    pub closed spec fn spec_position(&self) -> Option<GridPosition> {
        self.position
    }

    pub fn new_missing(missing_type_ids: Vec<u64>) -> (e: Self)
        ensures
            e.spec_missing() == Some(missing_type_ids@),
            e.spec_sizes() is None,
            e.spec_position() is None,
    {
        Self { missing_type_ids: Some(missing_type_ids), sizes: None, position: None }
    }

    pub fn new_wrong_size(source_size: GridSize, target_size: GridSize) -> (e: Self)
        ensures
            e.spec_missing() is None,
            e.spec_sizes() == Some((source_size, target_size)),
            e.spec_position() is None,
    {
        Self { missing_type_ids: None, sizes: Some((source_size, target_size)), position: None }
    }

    pub fn new_collapse(position: GridPosition) -> (e: Self)
        ensures
            e.spec_missing() is None,
            e.spec_sizes() is None,
            e.spec_position() == Some(position),
    {
        Self { missing_type_ids: None, sizes: None, position: Some(position) }
    }

    /// The `tile_type_id`s missing from the rules, if the error comes from them.
    pub fn missing_type_ids(&self) -> (r: &Option<Vec<u64>>)
        ensures
            match *r {
                Some(v) => self.spec_missing() == Some(v@),
                None => self.spec_missing() is None,
            },
    {
        &self.missing_type_ids
    }

    /// The sizes of the source and the target grid, if the error comes from their mismatch.
    pub fn sizes(&self) -> (r: &Option<(GridSize, GridSize)>)
        ensures
            *r == self.spec_sizes(),
    {
        &self.sizes
    }

    /// The position of the problematic tile, if the error comes from one.
    pub fn position(&self) -> (r: &Option<GridPosition>)
        ensures
            *r == self.spec_position(),
    {
        &self.position
    }
}

} // verus!
